//! What is shown of an expression that was evaluated in a stopped program.
use crate::adapter::Variable;
use crate::decode::DecodedBytes;
use crate::status::text_view;
use crate::text::{
    chars, has_any, join, join_texts, lines, same, slices, split_lines, text, views, Pattern,
};
use vstd::prelude::*;

verus! {

pub const EVAL_VARIABLE_DEPTH_LIMIT: usize = 3;

pub const EVAL_VARIABLE_NODE_LIMIT: usize = 512;

// ---------------------------------------------------------------------------
// Values
// ---------------------------------------------------------------------------

/// Two spaces for each level.
pub open spec fn indent(depth: nat) -> Seq<char> {
    Seq::new(2 * depth, |i: int| ' ')
}

fn push_indent(out: &mut String, depth: usize)
    ensures
        final(out)@ == old(out)@ + indent(depth as nat),
{
    let mut i: usize = 0;
    assert(out@ =~= old(out)@ + indent(0));
    while i < depth
        invariant
            i <= depth,
            out@ == old(out)@ + indent(i as nat),
        decreases depth - i,
    {
        out.push(' ');
        out.push(' ');
        i += 1;
        assert(out@ =~= old(out)@ + indent(i as nat));
    }
}

/// Where the reader of a value is.
pub enum Place {
    /// Outside strings.
    Plain,
    /// In a string.
    Quoted,
    /// In a string, behind a backslash.
    Escaped,
}

/// A value over several lines: what is in brackets is indented, one item to a line.
/// Strings stay as they are.
pub open spec fn spread(s: Seq<char>, depth: nat, place: Place) -> Seq<char>
    decreases s.len(),
{
    if s.len() == 0 {
        seq![]
    } else {
        let c = s[0];
        let rest = s.skip(1);
        match place {
            Place::Escaped => seq![c] + spread(rest, depth, Place::Quoted),
            Place::Quoted => seq![c] + spread(
                rest,
                depth,
                if c == '\\' {
                    Place::Escaped
                } else if c == '"' {
                    Place::Plain
                } else {
                    Place::Quoted
                },
            ),
            Place::Plain => if c == '"' {
                seq![c] + spread(rest, depth, Place::Quoted)
            } else if c == '{' || c == '[' {
                seq![c, '\n'] + indent(depth + 1) + spread(rest, depth + 1, Place::Plain)
            } else if c == '}' || c == ']' {
                let outer = if depth > 0 {
                    (depth - 1) as nat
                } else {
                    0
                };
                seq!['\n'] + indent(outer) + seq![c] + spread(rest, outer, Place::Plain)
            } else if c == ',' && depth > 0 {
                let next = if rest.len() > 0 && rest[0] == ' ' {
                    rest.skip(1)
                } else {
                    rest
                };
                seq![c, '\n'] + indent(depth) + spread(next, depth, Place::Plain)
            } else {
                seq![c] + spread(rest, depth, Place::Plain)
            },
        }
    }
}

/// A value for display: composite values over several lines.
pub fn format_eval_value(value: &str) -> (r: String)
    ensures
        r@ == spread(value@, 0, Place::Plain),
{
    let all = chars(value);
    let ghost whole = spread(value@, 0, Place::Plain);
    let mut r = String::new();
    let mut depth: usize = 0;
    let mut quoted = false;
    let mut escaped = false;
    let mut i: usize = 0;
    proof {
        assert(all@.skip(0) =~= all@);
        assert(r@ + whole =~= whole);
    }
    while i < all.len()
        invariant
            i <= all@.len(),
            depth <= i,
            escaped ==> quoted,
            r@ + spread(
                all@.skip(i as int),
                depth as nat,
                if escaped {
                    Place::Escaped
                } else if quoted {
                    Place::Quoted
                } else {
                    Place::Plain
                },
            ) == whole,
        decreases all@.len() - i,
    {
        let c = all[i];
        let ghost before = r@;
        let ghost left = all@.skip(i as int);
        proof {
            assert(left[0] == c);
            assert(left.skip(1) =~= all@.skip(i as int + 1));
        }
        let ghost mut added = seq![c];
        i += 1;
        if quoted {
            r.push(c);
            if escaped {
                escaped = false;
            } else if c == '\\' {
                escaped = true;
            } else if c == '"' {
                quoted = false;
            }
        } else if c == '"' {
            quoted = true;
            r.push(c);
        } else if c == '{' || c == '[' {
            depth += 1;
            r.push(c);
            r.push('\n');
            push_indent(&mut r, depth);
            proof {
                added = seq![c, '\n'] + indent(depth as nat);
            }
        } else if c == '}' || c == ']' {
            depth = if depth > 0 { depth - 1 } else { 0 };
            r.push('\n');
            push_indent(&mut r, depth);
            r.push(c);
            proof {
                added = seq!['\n'] + indent(depth as nat) + seq![c];
            }
        } else if c == ',' && depth > 0 {
            r.push(c);
            r.push('\n');
            push_indent(&mut r, depth);
            proof {
                added = seq![c, '\n'] + indent(depth as nat);
            }
            if i < all.len() && all[i] == ' ' {
                assert(left.skip(1)[0] == ' ');
                assert(left.skip(1).skip(1) =~= all@.skip(i as int + 1));
                i += 1;
            }
        } else {
            r.push(c);
        }
        proof {
            assert(r@ =~= before + added);
            let rest = spread(
                all@.skip(i as int),
                depth as nat,
                if escaped {
                    Place::Escaped
                } else if quoted {
                    Place::Quoted
                } else {
                    Place::Plain
                },
            );
            assert(r@ + rest =~= before + (added + rest));
        }
    }
    assert(r@ + Seq::<char>::empty() =~= r@);
    r
}

/// The characters but spaces and line feeds.
pub open spec fn solid(s: Seq<char>) -> Seq<char>
    decreases s.len(),
{
    if s.len() == 0 {
        seq![]
    } else if s[0] == ' ' || s[0] == '\n' {
        solid(s.skip(1))
    } else {
        seq![s[0]] + solid(s.skip(1))
    }
}

proof fn lemma_solid_sum(a: Seq<char>, b: Seq<char>)
    ensures
        solid(a + b) == solid(a) + solid(b),
    decreases a.len(),
{
    if a.len() == 0 {
        assert(a + b =~= b);
        assert(solid(a) + solid(b) =~= solid(b));
    } else {
        lemma_solid_sum(a.skip(1), b);
        assert((a + b).skip(1) =~= a.skip(1) + b);
        assert(seq![a[0]] + solid(a.skip(1)) + solid(b) =~= seq![a[0]] + (solid(a.skip(1))
            + solid(b)));
    }
}

proof fn lemma_blank(s: Seq<char>)
    requires
        forall|i: int| 0 <= i < s.len() ==> #[trigger] s[i] == ' ' || s[i] == '\n',
    ensures
        solid(s) == Seq::<char>::empty(),
    decreases s.len(),
{
    if s.len() > 0 {
        assert forall|i: int| 0 <= i < s.skip(1).len() implies #[trigger] s.skip(1)[i] == ' '
            || s.skip(1)[i] == '\n' by {
            assert(s.skip(1)[i] == s[i + 1]);
        }
        lemma_blank(s.skip(1));
    }
}

/// Showing a value over several lines changes nothing but spaces and line feeds.
pub proof fn values_keep_their_characters(s: Seq<char>, depth: nat, place: Place)
    ensures
        solid(spread(s, depth, place)) == solid(s),
    decreases s.len(),
{
    if s.len() > 0 {
        let c = s[0];
        let rest = s.skip(1);
        let one = seq![c];
        assert(s =~= one + rest);
        lemma_solid_sum(one, rest);
        match place {
            Place::Escaped => {
                values_keep_their_characters(rest, depth, Place::Quoted);
                lemma_solid_sum(one, spread(rest, depth, Place::Quoted));
            },
            Place::Quoted => {
                let next = if c == '\\' {
                    Place::Escaped
                } else if c == '"' {
                    Place::Plain
                } else {
                    Place::Quoted
                };
                values_keep_their_characters(rest, depth, next);
                lemma_solid_sum(one, spread(rest, depth, next));
            },
            Place::Plain => {
                if c == '"' {
                    values_keep_their_characters(rest, depth, Place::Quoted);
                    lemma_solid_sum(one, spread(rest, depth, Place::Quoted));
                } else if c == '{' || c == '[' {
                    let blank = seq!['\n'] + indent(depth + 1);
                    let tail = spread(rest, depth + 1, Place::Plain);
                    values_keep_their_characters(rest, depth + 1, Place::Plain);
                    lemma_blank(blank);
                    lemma_solid_sum(blank, tail);
                    lemma_solid_sum(one, blank + tail);
                    assert(seq![c, '\n'] + indent(depth + 1) + tail =~= one + (blank + tail));
                    assert(solid(blank) + solid(tail) =~= solid(tail));
                } else if c == '}' || c == ']' {
                    let outer = if depth > 0 {
                        (depth - 1) as nat
                    } else {
                        0
                    };
                    let blank = seq!['\n'] + indent(outer);
                    let tail = spread(rest, outer, Place::Plain);
                    values_keep_their_characters(rest, outer, Place::Plain);
                    lemma_blank(blank);
                    lemma_solid_sum(one, tail);
                    lemma_solid_sum(blank, one + tail);
                    assert(seq!['\n'] + indent(outer) + seq![c] + tail =~= blank + (one + tail));
                    assert(solid(blank) + solid(one + tail) =~= solid(one + tail));
                } else if c == ',' && depth > 0 {
                    let next = if rest.len() > 0 && rest[0] == ' ' {
                        rest.skip(1)
                    } else {
                        rest
                    };
                    let blank = seq!['\n'] + indent(depth);
                    let tail = spread(next, depth, Place::Plain);
                    values_keep_their_characters(next, depth, Place::Plain);
                    lemma_blank(blank);
                    lemma_solid_sum(blank, tail);
                    lemma_solid_sum(one, blank + tail);
                    assert(seq![c, '\n'] + indent(depth) + tail =~= one + (blank + tail));
                    assert(solid(blank) + solid(tail) =~= solid(tail));
                    assert(solid(rest) == solid(next));
                } else {
                    values_keep_their_characters(rest, depth, Place::Plain);
                    lemma_solid_sum(one, spread(rest, depth, Place::Plain));
                }
            },
        }
    }
}

// ---------------------------------------------------------------------------
// Variables
// ---------------------------------------------------------------------------

/// The first line of a variable, up to its value.
pub open spec fn variable_head(v: Variable, depth: nat) -> Seq<char> {
    indent(depth) + v.name@ + (match v.ty {
        Some(ty) => ": "@ + ty@,
        None => seq![],
    })
}

/// The lines, each at a depth.
pub open spec fn indented(rows: Seq<Seq<char>>, depth: nat) -> Seq<Seq<char>> {
    rows.map_values(|row: Seq<char>| indent(depth) + row)
}

/// The lines of a variable whose value is shown as `shown`: a value of several
/// lines stands below the name.
pub open spec fn variable_lines(v: Variable, depth: nat, shown: Seq<char>) -> Seq<Seq<char>> {
    if shown.contains('\n') {
        seq![variable_head(v, depth) + " ="@] + indented(lines(shown), depth + 1)
    } else {
        seq![variable_head(v, depth) + " = "@ + shown]
    }
}

/// Adds the lines of a text, each at a depth.
fn push_indented_block(rows: &mut Vec<String>, block: &str, depth: usize)
    ensures
        views(final(rows)@) == views(old(rows)@) + indented(lines(block@), depth as nat),
{
    let all = chars(block);
    let found = split_lines(&all);
    let ghost given = lines(block@);
    let ghost before = views(rows@);
    let mut i: usize = 0;
    assert(views(rows@) =~= before + indented(given.take(0), depth as nat));
    while i < found.len()
        invariant
            i <= found@.len(),
            given == slices(found@),
            views(rows@) == before + indented(given.take(i as int), depth as nat),
        decreases found@.len() - i,
    {
        let ghost held = views(rows@);
        let mut row = String::new();
        push_indent(&mut row, depth);
        row.append(&text(found[i]));
        assert(given[i as int] == found@[i as int]@);
        assert(row@ =~= indent(depth as nat) + given[i as int]);
        rows.push(row);
        assert(views(rows@) =~= held.push(row@));
        i += 1;
        assert(given.take(i as int) =~= given.take(i - 1).push(given[i - 1]));
        assert(views(rows@) =~= before + indented(given.take(i as int), depth as nat));
    }
    assert(given.take(i as int) =~= given);
}

fn push_shown(rows: &mut Vec<String>, variable: &Variable, depth: usize, shown: &str)
    requires
        depth < usize::MAX,
    ensures
        views(final(rows)@) == views(old(rows)@) + variable_lines(*variable, depth as nat, shown@),
{
    let ghost before = views(rows@);
    let mut head = String::new();
    push_indent(&mut head, depth);
    head.append(&variable.name);
    match &variable.ty {
        Some(ty) => {
            head.append(": ");
            head.append(ty);
        },
        None => {},
    }
    assert(head@ =~= variable_head(*variable, depth as nat));
    let all = chars(shown);
    let feed = Pattern::One('\n');
    if has_any(&all, feed) {
        proof {
            let k = choose|k: int| 0 <= k < shown@.len() && feed.hits(#[trigger] shown@[k]);
            assert(shown@[k] == '\n');
        }
        head.append(" =");
        rows.push(head);
        assert(views(rows@) =~= before.push(head@));
        let ghost first = views(rows@);
        push_indented_block(rows, shown, depth + 1);
        assert(views(rows@) =~= before + variable_lines(*variable, depth as nat, shown@));
    } else {
        proof {
            if shown@.contains('\n') {
                let k = choose|k: int| 0 <= k < shown@.len() && shown@[k] == '\n';
                assert(feed.hits(shown@[k]));
            }
        }
        head.append(" = ");
        head.append(shown);
        rows.push(head);
        assert(views(rows@) =~= before + variable_lines(*variable, depth as nat, shown@));
    }
}

/// Adds the lines of a variable, its value over several lines where it is composite.
pub fn push_variable_lines(rows: &mut Vec<String>, variable: &Variable, depth: usize)
    requires
        depth < usize::MAX,
    ensures
        views(final(rows)@) == views(old(rows)@) + variable_lines(
            *variable,
            depth as nat,
            spread(variable.value@, 0, Place::Plain),
        ),
{
    let shown = format_eval_value(&variable.value);
    push_shown(rows, variable, depth, &shown);
}

/// Adds the lines of a variable whose bytes were decoded.
pub fn push_decoded_variable_lines(
    rows: &mut Vec<String>,
    variable: &Variable,
    depth: usize,
    decoded: &DecodedBytes,
)
    requires
        depth < usize::MAX,
    ensures
        views(final(rows)@) == views(old(rows)@) + variable_lines(
            *variable,
            depth as nat,
            decoded.pretty@,
        ),
{
    push_shown(rows, variable, depth, &decoded.pretty);
}

// ---------------------------------------------------------------------------
// Children
// ---------------------------------------------------------------------------

/// What the debugger says of the children of a variable.
#[derive(Debug)]
pub enum Answer {
    /// They are bytes, which hold a text.
    Bytes(DecodedBytes),
    Children(Vec<Variable>),
    Failed(String),
}

/// An answer, and the reference that was asked for.
#[derive(Debug)]
pub struct Known {
    pub reference: usize,
    pub answer: Answer,
}

/// What the debugger has to be asked before the rendering can go on.
#[derive(Debug)]
pub struct Question {
    pub reference: usize,
    pub indexed_variables: Option<usize>,
}

/// How far the children are rendered.
#[derive(Debug)]
pub struct Rendering {
    /// How many variables may still be shown.
    pub remaining: usize,
    /// The references that were expanded.
    pub visited: Vec<usize>,
    pub lines: Vec<String>,
}

pub struct RenderingView {
    pub remaining: nat,
    pub visited: Seq<usize>,
    pub lines: Seq<Seq<char>>,
}

impl View for Rendering {
    type V = RenderingView;

    open spec fn view(&self) -> RenderingView {
        RenderingView {
            remaining: self.remaining as nat,
            visited: self.visited@,
            lines: views(self.lines@),
        }
    }
}

/// How the rendering of children ended.
#[derive(Debug)]
pub enum Outcome {
    Done,
    Failed(String),
    Unknown(Question),
}

pub enum OutcomeView {
    Done,
    Failed(Seq<char>),
    Unknown(Question),
}

impl View for Outcome {
    type V = OutcomeView;

    open spec fn view(&self) -> OutcomeView {
        match self {
            Outcome::Done => OutcomeView::Done,
            Outcome::Failed(e) => OutcomeView::Failed(e@),
            Outcome::Unknown(q) => OutcomeView::Unknown(*q),
        }
    }
}

/// The first answer from index `i` on for a reference.
pub open spec fn answer_from(known: Seq<Known>, reference: usize, i: int) -> Option<Answer>
    decreases known.len() - i,
{
    if i < 0 || i >= known.len() {
        None
    } else if known[i].reference == reference {
        Some(known[i].answer)
    } else {
        answer_from(known, reference, i + 1)
    }
}

fn find_answer<'a>(known: &'a Vec<Known>, reference: usize) -> (r: Option<&'a Answer>)
    ensures
        match r {
            Some(a) => answer_from(known@, reference, 0) == Some(*a),
            None => answer_from(known@, reference, 0) is None,
        },
{
    let mut i: usize = 0;
    while i < known.len()
        invariant
            i <= known@.len(),
            answer_from(known@, reference, 0) == answer_from(known@, reference, i as int),
        decreases known@.len() - i,
    {
        if known[i].reference == reference {
            return Some(&known[i].answer);
        }
        i += 1;
    }
    None
}

/// The variable is expanded: it has children, stands not too deep, and was not
/// expanded before.
pub open spec fn expands(v: Variable, depth: nat, visited: Seq<usize>) -> bool {
    v.variables_reference != 0 && depth < EVAL_VARIABLE_DEPTH_LIMIT && !visited.contains(
        v.variables_reference,
    )
}

/// The variables from index `i` on, with their children, added to `st`.
pub open spec fn rendered(
    known: Seq<Known>,
    variables: Seq<Variable>,
    i: int,
    depth: nat,
    st: RenderingView,
) -> (RenderingView, OutcomeView)
    decreases EVAL_VARIABLE_DEPTH_LIMIT + 1 - depth, variables.len() - i,
{
    if i < 0 || i >= variables.len() {
        (st, OutcomeView::Done)
    } else if st.remaining == 0 {
        (
            RenderingView { lines: st.lines.push(indent(depth) + "..."@), ..st },
            OutcomeView::Done,
        )
    } else {
        let v = variables[i];
        let left = (st.remaining - 1) as nat;
        let plain = variable_lines(v, depth, spread(v.value@, 0, Place::Plain));
        if expands(v, depth, st.visited) {
            let seen = st.visited.push(v.variables_reference);
            match answer_from(known, v.variables_reference, 0) {
                None => (
                    RenderingView { remaining: left, visited: seen, lines: st.lines },
                    OutcomeView::Unknown(
                        Question {
                            reference: v.variables_reference,
                            indexed_variables: v.indexed_variables,
                        },
                    ),
                ),
                Some(Answer::Failed(e)) => (
                    RenderingView { remaining: left, visited: seen, lines: st.lines },
                    OutcomeView::Failed(e@),
                ),
                Some(Answer::Bytes(decoded)) => rendered(
                    known,
                    variables,
                    i + 1,
                    depth,
                    RenderingView {
                        remaining: left,
                        visited: seen,
                        lines: st.lines + variable_lines(v, depth, decoded.pretty@),
                    },
                ),
                Some(Answer::Children(children)) => {
                    let inner = rendered(
                        known,
                        children@,
                        0,
                        depth + 1,
                        RenderingView { remaining: left, visited: seen, lines: st.lines + plain },
                    );
                    if inner.1 is Done {
                        rendered(known, variables, i + 1, depth, inner.0)
                    } else {
                        inner
                    }
                },
            }
        } else {
            rendered(
                known,
                variables,
                i + 1,
                depth,
                RenderingView {
                    remaining: left,
                    visited: st.visited,
                    lines: st.lines + plain,
                },
            )
        }
    }
}

fn visited_before(visited: &Vec<usize>, reference: usize) -> (r: bool)
    ensures
        r == visited@.contains(reference),
{
    let mut i: usize = 0;
    while i < visited.len()
        invariant
            i <= visited@.len(),
            forall|k: int| 0 <= k < i ==> #[trigger] visited@[k] != reference,
        decreases visited@.len() - i,
    {
        if visited[i] == reference {
            return true;
        }
        i += 1;
    }
    false
}

/// Renders variables and, as far as the limits and the answers go, their children.
pub fn render_variable_children(
    known: &Vec<Known>,
    variables: &Vec<Variable>,
    depth: usize,
    st: &mut Rendering,
) -> (r: Outcome)
    requires
        depth <= EVAL_VARIABLE_DEPTH_LIMIT,
    ensures
        (final(st)@, r@) == rendered(known@, variables@, 0, depth as nat, old(st)@),
    decreases EVAL_VARIABLE_DEPTH_LIMIT + 1 - depth,
{
    let ghost whole = rendered(known@, variables@, 0, depth as nat, st@);
    let mut i: usize = 0;
    while i < variables.len()
        invariant
            i <= variables@.len(),
            depth <= EVAL_VARIABLE_DEPTH_LIMIT,
            whole == rendered(known@, variables@, 0, depth as nat, old(st)@),
            whole == rendered(known@, variables@, i as int, depth as nat, st@),
        decreases variables@.len() - i,
    {
        let v = &variables[i];
        let ghost before = st@;
        if st.remaining == 0 {
            let mut row = String::new();
            push_indent(&mut row, depth);
            row.append("...");
            assert(row@ =~= indent(depth as nat) + "..."@);
            st.lines.push(row);
            assert(views(st.lines@) =~= before.lines.push(row@));
            return Outcome::Done;
        }
        st.remaining -= 1;
        if v.variables_reference != 0 && depth < EVAL_VARIABLE_DEPTH_LIMIT && !visited_before(
            &st.visited,
            v.variables_reference,
        ) {
            st.visited.push(v.variables_reference);
            match find_answer(known, v.variables_reference) {
                None => return Outcome::Unknown(
                    Question {
                        reference: v.variables_reference,
                        indexed_variables: v.indexed_variables,
                    },
                ),
                Some(Answer::Failed(e)) => return Outcome::Failed(e.clone()),
                Some(Answer::Bytes(decoded)) => push_decoded_variable_lines(
                    &mut st.lines,
                    v,
                    depth,
                    decoded,
                ),
                Some(Answer::Children(children)) => {
                    push_variable_lines(&mut st.lines, v, depth);
                    match render_variable_children(known, children, depth + 1, st) {
                        Outcome::Done => {},
                        other => return other,
                    }
                },
            }
        } else {
            push_variable_lines(&mut st.lines, v, depth);
        }
        i += 1;
    }
    Outcome::Done
}

/// No reference is expanded twice, and each expansion takes one of the variables
/// that may be shown.
pub proof fn expansions_are_bounded(
    known: Seq<Known>,
    variables: Seq<Variable>,
    i: int,
    depth: nat,
    st: RenderingView,
)
    requires
        st.visited.no_duplicates(),
    ensures
        rendered(known, variables, i, depth, st).0.visited.no_duplicates(),
        rendered(known, variables, i, depth, st).0.visited.len() + rendered(
            known,
            variables,
            i,
            depth,
            st,
        ).0.remaining <= st.visited.len() + st.remaining,
    decreases EVAL_VARIABLE_DEPTH_LIMIT + 1 - depth, variables.len() - i,
{
    if 0 <= i < variables.len() && st.remaining > 0 {
        let v = variables[i];
        let left = (st.remaining - 1) as nat;
        let plain = variable_lines(v, depth, spread(v.value@, 0, Place::Plain));
        if expands(v, depth, st.visited) {
            let seen = st.visited.push(v.variables_reference);
            match answer_from(known, v.variables_reference, 0) {
                Some(Answer::Bytes(decoded)) => expansions_are_bounded(
                    known,
                    variables,
                    i + 1,
                    depth,
                    RenderingView {
                        remaining: left,
                        visited: seen,
                        lines: st.lines + variable_lines(v, depth, decoded.pretty@),
                    },
                ),
                Some(Answer::Children(children)) => {
                    let start = RenderingView {
                        remaining: left,
                        visited: seen,
                        lines: st.lines + plain,
                    };
                    expansions_are_bounded(known, children@, 0, depth + 1, start);
                    let inner = rendered(known, children@, 0, depth + 1, start);
                    expansions_are_bounded(known, variables, i + 1, depth, inner.0);
                },
                _ => {},
            }
        } else {
            expansions_are_bounded(
                known,
                variables,
                i + 1,
                depth,
                RenderingView { remaining: left, visited: st.visited, lines: st.lines + plain },
            );
        }
    }
}

// ---------------------------------------------------------------------------
// Results
// ---------------------------------------------------------------------------

/// What the debugger says of an expression.
#[derive(Debug)]
pub struct EvaluateResponse {
    pub result: String,
    pub ty: Option<String>,
    pub variables_reference: usize,
    pub indexed_variables: Option<usize>,
}

pub open spec fn children_start() -> RenderingView {
    RenderingView { remaining: EVAL_VARIABLE_NODE_LIMIT as nat, visited: seq![], lines: seq![] }
}

/// The children of a result, given the debugger's answer for it and for what is
/// below it; nothing if it has none to show. The debugger has to be asked first
/// where an answer is missing.
pub open spec fn children_shown(
    variables_reference: usize,
    top: Answer,
    known: Seq<Known>,
) -> Result<Option<Seq<char>>, Question> {
    if variables_reference == 0 {
        Ok(None)
    } else {
        match top {
            Answer::Bytes(decoded) => Ok(Some(decoded.pretty@)),
            Answer::Failed(_) => Ok(None),
            Answer::Children(variables) => {
                let (st, outcome) = rendered(known, variables@, 0, 0, children_start());
                match outcome {
                    OutcomeView::Unknown(q) => Err(q),
                    OutcomeView::Failed(e) => Ok(
                        Some(
                            "children:\n"@ + join(
                                st.lines.push("<failed to expand children: "@ + e + ">"@),
                                "\n"@,
                            ),
                        ),
                    ),
                    OutcomeView::Done => if st.lines.len() == 0 {
                        Ok(None)
                    } else {
                        Ok(Some("children:\n"@ + join(st.lines, "\n"@)))
                    },
                }
            },
        }
    }
}

pub fn format_eval_children(variables_reference: usize, top: &Answer, known: &Vec<Known>) -> (r:
    Result<Option<String>, Question>)
    ensures
        match r {
            Ok(shown) => children_shown(variables_reference, *top, known@) == Ok::<
                Option<Seq<char>>,
                Question,
            >(text_view(shown)),
            Err(q) => children_shown(variables_reference, *top, known@) == Err::<
                Option<Seq<char>>,
                Question,
            >(q),
        },
{
    if variables_reference == 0 {
        return Ok(None);
    }
    let variables = match top {
        Answer::Bytes(decoded) => return Ok(Some(decoded.pretty.clone())),
        Answer::Failed(_e) => return Ok(None),
        Answer::Children(variables) => variables,
    };
    let mut st = Rendering {
        remaining: EVAL_VARIABLE_NODE_LIMIT,
        visited: Vec::new(),
        lines: Vec::new(),
    };
    assert(st@.visited =~= children_start().visited);
    assert(st@.lines =~= children_start().lines);
    match render_variable_children(known, variables, 0, &mut st) {
        Outcome::Unknown(q) => return Err(q),
        Outcome::Failed(e) => {
            let ghost before = views(st.lines@);
            let mut row = "<failed to expand children: ".to_owned();
            row.append(&e);
            row.append(">");
            st.lines.push(row);
            assert(views(st.lines@) =~= before.push(row@));
        },
        Outcome::Done => {},
    }
    if st.lines.len() == 0 {
        return Ok(None);
    }
    let mut shown = "children:\n".to_owned();
    shown.append(&join_texts(&st.lines, "\n"));
    Ok(Some(shown))
}

/// What is shown of a result: its expression and type, then its children, or its
/// value where there are none.
pub open spec fn response_shown(
    expression: Seq<char>,
    response: EvaluateResponse,
    children: Option<Seq<char>>,
) -> Seq<char> {
    let header = match response.ty {
        Some(ty) => expression + ": "@ + ty@,
        None => expression,
    };
    header + "\n\n"@ + (match children {
        Some(children) => children,
        None => if response.result@.len() == 0 {
            "(empty)"@
        } else {
            spread(response.result@, 0, Place::Plain)
        },
    })
}

pub fn format_eval_response(
    expression: &str,
    response: &EvaluateResponse,
    top: &Answer,
    known: &Vec<Known>,
) -> (r: Result<String, Question>)
    ensures
        match children_shown(response.variables_reference, *top, known@) {
            Ok(children) => r matches Ok(shown) && shown@ == response_shown(
                expression@,
                *response,
                children,
            ),
            Err(q) => r == Err::<String, Question>(q),
        },
{
    let children = match format_eval_children(response.variables_reference, top, known) {
        Ok(children) => children,
        Err(q) => return Err(q),
    };
    let mut shown = expression.to_owned();
    match &response.ty {
        Some(ty) => {
            shown.append(": ");
            shown.append(ty);
        },
        None => {},
    }
    shown.append("\n\n");
    match children {
        Some(children) => shown.append(&children),
        None => {
            proof {
                reveal_strlit("");
                assert(response.result@.len() == 0 ==> response.result@ =~= ""@);
            }
            if same(&response.result, "") {
                shown.append("(empty)");
            } else {
                shown.append(&format_eval_value(&response.result));
            }
        },
    }
    Ok(shown)
}

// ---------------------------------------------------------------------------
// Buffers
// ---------------------------------------------------------------------------

/// Where the text of a buffer that is used again and again is shown.
#[derive(Clone, Copy, Debug, PartialEq, Eq, Structural)]
pub enum Showing {
    /// In the view that shows the buffer already: document and view.
    Visible(u64, u64),
    /// In a new split: the document is there, and no view shows it.
    Hidden(u64),
    /// In a new split and a new document.
    New,
}

/// The buffer of the last time is used again while it is open. `view` is a view
/// that shows it.
pub fn showing(last: Option<u64>, is_open: bool, view: Option<u64>) -> (r: Showing)
    ensures
        r == (match last {
            Some(document) => if is_open {
                match view {
                    Some(view) => Showing::Visible(document, view),
                    None => Showing::Hidden(document),
                }
            } else {
                Showing::New
            },
            None => Showing::New,
        }),
{
    match (last, view) {
        (Some(document), Some(view)) if is_open => Showing::Visible(document, view),
        (Some(document), None) if is_open => Showing::Hidden(document),
        _ => Showing::New,
    }
}

/// The view to go to once the result is shown: the one where the evaluation was
/// asked for if the focus is kept, else the one that shows the result. A new
/// split has the focus by itself.
pub fn focus_after(shown: Showing, origin: u64, keep_focus: bool) -> (r: Option<u64>)
    ensures
        r == (if keep_focus {
            Some(origin)
        } else {
            match shown {
                Showing::Visible(_, view) => Some(view),
                _ => None,
            }
        }),
{
    if keep_focus {
        return Some(origin);
    }
    match shown {
        Showing::Visible(_, view) => Some(view),
        _ => None,
    }
}

/// A value without brackets stays on one line, as it is.
pub proof fn plain_values_stay_on_one_line(s: Seq<char>, place: Place)
    requires
        forall|i: int|
            0 <= i < s.len() ==> #[trigger] s[i] != '{' && s[i] != '[' && s[i] != '}' && s[i]
                != ']',
    ensures
        spread(s, 0, place) == s,
    decreases s.len(),
{
    if s.len() > 0 {
        let rest = s.skip(1);
        assert forall|i: int| 0 <= i < rest.len() implies #[trigger] rest[i] != '{' && rest[i]
            != '[' && rest[i] != '}' && rest[i] != ']' by {
            assert(rest[i] == s[i + 1]);
        }
        plain_values_stay_on_one_line(rest, Place::Plain);
        plain_values_stay_on_one_line(rest, Place::Quoted);
        plain_values_stay_on_one_line(rest, Place::Escaped);
        assert(s[0] != '{' && s[0] != '[' && s[0] != '}' && s[0] != ']');
        assert(s =~= seq![s[0]] + rest);
    } else {
        assert(s =~= seq![]);
    }
}

proof fn lemma_in_string(a: Seq<char>, rest: Seq<char>, depth: nat)
    requires
        forall|i: int| 0 <= i < a.len() ==> #[trigger] a[i] != '"' && a[i] != '\\',
    ensures
        spread(a + seq!['"'] + rest, depth, Place::Quoted) == a + seq!['"'] + spread(
            rest,
            depth,
            Place::Plain,
        ),
    decreases a.len(),
{
    let s = a + seq!['"'] + rest;
    if a.len() == 0 {
        assert(s.skip(1) =~= rest);
        assert(s[0] == '"');
        assert(a =~= seq![]);
        assert(a + seq!['"'] + spread(rest, depth, Place::Plain) =~= seq!['"'] + spread(
            rest,
            depth,
            Place::Plain,
        ));
    } else {
        let b = a.skip(1);
        assert forall|i: int| 0 <= i < b.len() implies #[trigger] b[i] != '"' && b[i]
            != '\\' by {
            assert(b[i] == a[i + 1]);
        }
        lemma_in_string(b, rest, depth);
        assert(s[0] == a[0]);
        assert(s.skip(1) =~= b + seq!['"'] + rest);
        assert(seq![a[0]] + (b + seq!['"'] + spread(rest, depth, Place::Plain)) =~= a + seq!['"']
            + spread(rest, depth, Place::Plain));
    }
}

/// A string stays as it is, whatever stands in it.
pub proof fn strings_stay_as_they_are(a: Seq<char>, rest: Seq<char>, depth: nat)
    requires
        forall|i: int| 0 <= i < a.len() ==> #[trigger] a[i] != '"' && a[i] != '\\',
    ensures
        spread(seq!['"'] + a + seq!['"'] + rest, depth, Place::Plain) == seq!['"'] + a + seq!['"']
            + spread(rest, depth, Place::Plain),
{
    let s = seq!['"'] + a + seq!['"'] + rest;
    lemma_in_string(a, rest, depth);
    assert(s[0] == '"');
    assert(s.skip(1) =~= a + seq!['"'] + rest);
    assert(seq!['"'] + (a + seq!['"'] + spread(rest, depth, Place::Plain)) =~= seq!['"'] + a
        + seq!['"'] + spread(rest, depth, Place::Plain));
}

/// A character that is neither a bracket nor a comma nor a quote.
pub open spec fn simple(c: char) -> bool {
    c != '{' && c != '[' && c != '}' && c != ']' && c != ',' && c != '"'
}

proof fn lemma_simple(a: Seq<char>, rest: Seq<char>, depth: nat)
    requires
        forall|i: int| 0 <= i < a.len() ==> simple(#[trigger] a[i]),
    ensures
        spread(a + rest, depth, Place::Plain) == a + spread(rest, depth, Place::Plain),
    decreases a.len(),
{
    let s = a + rest;
    if a.len() == 0 {
        assert(s =~= rest);
        assert(a + spread(rest, depth, Place::Plain) =~= spread(rest, depth, Place::Plain));
    } else {
        let b = a.skip(1);
        assert forall|i: int| 0 <= i < b.len() implies simple(#[trigger] b[i]) by {
            assert(b[i] == a[i + 1]);
        }
        lemma_simple(b, rest, depth);
        assert(simple(a[0]));
        assert(s[0] == a[0]);
        assert(s.skip(1) =~= b + rest);
        assert(seq![a[0]] + (b + spread(rest, depth, Place::Plain)) =~= a + spread(
            rest,
            depth,
            Place::Plain,
        ));
    }
}

/// The items of a composite value stand on lines of their own, one level deeper than its
/// brackets.
pub proof fn items_stand_on_lines_of_their_own(
    open: char,
    a: Seq<char>,
    b: Seq<char>,
    close: char,
    depth: nat,
)
    requires
        open == '[' || open == '{',
        close == ']' || close == '}',
        forall|i: int| 0 <= i < a.len() ==> simple(#[trigger] a[i]),
        forall|i: int| 0 <= i < b.len() ==> simple(#[trigger] b[i]),
    ensures
        spread(seq![open] + a + seq![',', ' '] + b + seq![close], depth, Place::Plain) == seq![
            open,
            '\n',
        ] + indent(depth + 1) + a + seq![',', '\n'] + indent(depth + 1) + b + seq!['\n'] + indent(
            depth,
        ) + seq![close],
{
    let s = seq![open] + a + seq![',', ' '] + b + seq![close];
    let end = seq![close];
    let second = b + end;
    let comma = seq![',', ' '] + second;
    let inner = a + comma;
    let none = Seq::<char>::empty();
    assert(s[0] == open);
    assert(s.skip(1) =~= inner);
    lemma_simple(a, comma, depth + 1);
    assert(comma[0] == ',');
    let behind = comma.skip(1);
    assert(behind[0] == ' ');
    assert(behind.skip(1) =~= second);
    lemma_simple(b, end, depth + 1);
    assert(end[0] == close);
    assert(end.skip(1) =~= none);
    assert(spread(none, depth, Place::Plain) =~= none);
    let last = seq!['\n'] + indent(depth) + seq![close];
    assert(spread(end, depth + 1, Place::Plain) =~= last);
    assert(spread(comma, depth + 1, Place::Plain) == seq![',', '\n'] + indent(depth + 1) + spread(
        second,
        depth + 1,
        Place::Plain,
    ));
    assert(spread(s, depth, Place::Plain) == seq![open, '\n'] + indent(depth + 1) + spread(
        inner,
        depth + 1,
        Place::Plain,
    ));
    assert(spread(s, depth, Place::Plain) =~= seq![open, '\n'] + indent(depth + 1) + a + seq![
        ',',
        '\n',
    ] + indent(depth + 1) + b + seq!['\n'] + indent(depth) + seq![close]);
}

proof fn lemma_answer(known: Seq<Known>, reference: usize, i: int, k: int)
    requires
        0 <= i <= k < known.len(),
        known[k].reference == reference,
        forall|j: int| i <= j < k ==> (#[trigger] known[j]).reference != reference,
    ensures
        answer_from(known, reference, i) == Some(known[k].answer),
    decreases k - i,
{
    if i < k {
        lemma_answer(known, reference, i + 1, k);
    }
}

proof fn lemma_no_answer(known: Seq<Known>, reference: usize, i: int)
    requires
        0 <= i,
        forall|j: int| i <= j < known.len() ==> (#[trigger] known[j]).reference != reference,
    ensures
        answer_from(known, reference, i) is None,
    decreases known.len() - i,
{
    if i < known.len() {
        lemma_no_answer(known, reference, i + 1);
    }
}

/// A variable without children, one that stands too deep and one that was expanded
/// before take their own lines and no more.
pub proof fn leaves_take_their_own_lines(
    known: Seq<Known>,
    v: Variable,
    depth: nat,
    st: RenderingView,
)
    requires
        st.remaining > 0,
        v.variables_reference == 0 || depth >= EVAL_VARIABLE_DEPTH_LIMIT || st.visited.contains(
            v.variables_reference,
        ),
    ensures
        rendered(known, seq![v], 0, depth, st) == (
            RenderingView {
                remaining: (st.remaining - 1) as nat,
                visited: st.visited,
                lines: st.lines + variable_lines(v, depth, spread(v.value@, 0, Place::Plain)),
            },
            OutcomeView::Done,
        ),
{
    reveal_with_fuel(rendered, 2);
}

/// The children of a variable follow its own lines, one level deeper.
pub proof fn children_follow_their_variable(
    known: Seq<Known>,
    v: Variable,
    depth: nat,
    st: RenderingView,
    k: int,
)
    requires
        st.remaining > 0,
        v.variables_reference != 0,
        depth < EVAL_VARIABLE_DEPTH_LIMIT,
        !st.visited.contains(v.variables_reference),
        0 <= k < known.len(),
        known[k].reference == v.variables_reference,
        forall|j: int| 0 <= j < k ==> (#[trigger] known[j]).reference != v.variables_reference,
        known[k].answer is Children,
    ensures
        rendered(known, seq![v], 0, depth, st) == rendered(
            known,
            known[k].answer->Children_0@,
            0,
            depth + 1,
            RenderingView {
                remaining: (st.remaining - 1) as nat,
                visited: st.visited.push(v.variables_reference),
                lines: st.lines + variable_lines(v, depth, spread(v.value@, 0, Place::Plain)),
            },
        ),
{
    lemma_answer(known, v.variables_reference, 0, k);
    let inner = rendered(
        known,
        known[k].answer->Children_0@,
        0,
        depth + 1,
        RenderingView {
            remaining: (st.remaining - 1) as nat,
            visited: st.visited.push(v.variables_reference),
            lines: st.lines + variable_lines(v, depth, spread(v.value@, 0, Place::Plain)),
        },
    );
    assert(rendered(known, seq![v], 1, depth, inner.0) == (inner.0, OutcomeView::Done));
    assert(seq![v][0] == v);
    assert(expands(v, depth, st.visited));
}

/// What the debugger has not told yet is asked for, and what it could not tell ends the
/// list.
pub proof fn missing_answers_are_asked_for(
    known: Seq<Known>,
    v: Variable,
    depth: nat,
    st: RenderingView,
)
    requires
        st.remaining > 0,
        v.variables_reference != 0,
        depth < EVAL_VARIABLE_DEPTH_LIMIT,
        !st.visited.contains(v.variables_reference),
        forall|j: int|
            0 <= j < known.len() ==> (#[trigger] known[j]).reference != v.variables_reference,
    ensures
        rendered(known, seq![v], 0, depth, st).1 == OutcomeView::Unknown(
            Question {
                reference: v.variables_reference,
                indexed_variables: v.indexed_variables,
            },
        ),
{
    lemma_no_answer(known, v.variables_reference, 0);
    assert(seq![v][0] == v);
    assert(expands(v, depth, st.visited));
}

/// Where no more variables may be shown, one line says that there are more.
pub proof fn long_lists_are_cut_off(
    known: Seq<Known>,
    variables: Seq<Variable>,
    depth: nat,
    st: RenderingView,
)
    requires
        st.remaining == 0,
        variables.len() > 0,
    ensures
        rendered(known, variables, 0, depth, st).0.lines == st.lines.push(indent(depth) + "..."@),
        rendered(known, variables, 0, depth, st).1 is Done,
{
}

/// A result is shown below its expression and type: its children, or else its value.
pub proof fn results_are_shown_below_their_expression(
    expression: Seq<char>,
    response: EvaluateResponse,
    children: Option<Seq<char>>,
)
    ensures
        response.ty matches Some(ty) ==> crate::text::starts_with(
            response_shown(expression, response, children),
            expression + ": "@ + ty@ + "\n\n"@,
        ),
        response.ty is None ==> crate::text::starts_with(
            response_shown(expression, response, children),
            expression + "\n\n"@,
        ),
        children matches Some(c) ==> crate::text::ends_with(
            response_shown(expression, response, children),
            c,
        ),
        children is None && response.result@.len() > 0 ==> crate::text::ends_with(
            response_shown(expression, response, children),
            spread(response.result@, 0, Place::Plain),
        ),
{
    let header = match response.ty {
        Some(ty) => expression + ": "@ + ty@,
        None => expression,
    };
    let body = match children {
        Some(c) => c,
        None => if response.result@.len() == 0 {
            "(empty)"@
        } else {
            spread(response.result@, 0, Place::Plain)
        },
    };
    let all = response_shown(expression, response, children);
    assert(all == header + "\n\n"@ + body);
    assert(all.take((header + "\n\n"@).len() as int) =~= header + "\n\n"@);
    assert(all.skip(all.len() - body.len()) =~= body);
}

/// The children of a result are asked for where they are not known, shown as text where
/// they are bytes, and left out where there are none.
pub proof fn children_of_results_are_shown(
    reference: usize,
    variables: Vec<Variable>,
    decoded: DecodedBytes,
    error: String,
    known: Seq<Known>,
)
    requires
        reference != 0,
    ensures
        children_shown(0, Answer::Children(variables), known) == Ok::<
            Option<Seq<char>>,
            Question,
        >(None),
        children_shown(reference, Answer::Bytes(decoded), known) == Ok::<
            Option<Seq<char>>,
            Question,
        >(Some(decoded.pretty@)),
        children_shown(reference, Answer::Failed(error), known) == Ok::<
            Option<Seq<char>>,
            Question,
        >(None),
        ({
            let (st, outcome) = rendered(
                known,
                variables@,
                0,
                0,
                RenderingView {
                    remaining: EVAL_VARIABLE_NODE_LIMIT as nat,
                    visited: seq![],
                    lines: seq![],
                },
            );
            let shown = children_shown(reference, Answer::Children(variables), known);
            &&& outcome matches OutcomeView::Unknown(q) ==> shown == Err::<
                Option<Seq<char>>,
                Question,
            >(q)
            &&& outcome is Done && st.lines.len() > 0 ==> shown == Ok::<
                Option<Seq<char>>,
                Question,
            >(Some("children:\n"@ + join(st.lines, "\n"@)))
        }),
{
}

} // verus!
