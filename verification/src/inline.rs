//! Discussions shown between the lines of a document.
use std::ops::Range;
use std::sync::Arc;

use vstd::prelude::*;

use crate::placement::{placement_label, Placement};
use crate::review::{share, title, Comment, Thread};
use crate::text::{chars, concat, lines, split_lines, text, views};

verus! {

/// A discussion at its place in a document.
#[derive(Debug)]
pub struct Block {
    pub thread: Arc<Thread>,
    pub range: Range<usize>,
    /// At the terminating newline (or the end), so soft-wrapped code is
    /// completely rendered before the discussion is inserted.
    pub anchor: usize,
    pub expanded: bool,
    pub placement: Placement,
}

impl Clone for Block {
    fn clone(&self) -> (r: Block)
        ensures
            r == *self,
    {
        Block {
            thread: share(&self.thread),
            range: self.range.start..self.range.end,
            anchor: self.anchor,
            expanded: self.expanded,
            placement: self.placement,
        }
    }
}

/// A piece of a line that is drawn as a whole, and the columns it takes.
#[derive(Debug)]
pub struct Cell {
    pub text: String,
    pub width: usize,
}

/// The extended grapheme clusters of a text.
pub uninterp spec fn grapheme_clusters(s: Seq<char>) -> Seq<Seq<char>>;

/// The number of columns that a text takes.
pub uninterp spec fn display_width(s: Seq<char>) -> usize;

/// `UnicodeSegmentation::graphemes` with extended clusters: the clusters are a
/// function of the text. None is empty, and one after another they are the text.
#[verifier::external_body]
fn graphemes(s: &str) -> (r: Vec<String>)
    ensures
        views(r@) == grapheme_clusters(s@),
        concat(views(r@)) == s@,
        forall|i: int| 0 <= i < r@.len() ==> (#[trigger] r@[i])@.len() > 0,
{
    unicode_segmentation::UnicodeSegmentation::graphemes(s, true).map(|g| g.to_owned()).collect()
}

/// `UnicodeWidthStr::width`: the number of columns, a function of the text.
#[verifier::external_body]
fn width_of(s: &str) -> (r: usize)
    ensures
        r == display_width(s@),
{
    unicode_width::UnicodeWidthStr::width(s)
}

/// The texts and widths of cells.
pub open spec fn pieces(cells: Seq<Cell>) -> Seq<(Seq<char>, usize)> {
    cells.map_values(|c: Cell| (c.text@, c.width))
}

pub open spec fn pieces_of(s: Seq<char>) -> Seq<(Seq<char>, usize)> {
    grapheme_clusters(s).map_values(|g: Seq<char>| (g, display_width(g)))
}

/// Rows so far, and whether there was room for everything.
pub type Filled = (Seq<Seq<char>>, bool);

/// The rows after the cells of a line have been put into them, `row` with
/// `used` columns being open. A row that the next cell does not fit into is
/// ended. Cells that are wider than a row are left out. `false` once the rows
/// are full.
pub open spec fn fill_row(
    rows: Seq<Seq<char>>,
    cells: Seq<(Seq<char>, usize)>,
    row: Seq<char>,
    used: int,
    width: int,
    limit: int,
) -> Filled
    decreases cells.len(),
{
    if cells.len() == 0 {
        (rows.push(row), true)
    } else {
        let (piece, w) = cells[0];
        let rest = cells.skip(1);
        if used + w > width && row.len() > 0 {
            if rows.len() + 1 >= limit {
                (rows.push(row), false)
            } else if w <= width {
                fill_row(rows.push(row), rest, piece, w as int, width, limit)
            } else {
                fill_row(rows.push(row), rest, seq![], 0, width, limit)
            }
        } else if w <= width {
            fill_row(rows, rest, row + piece, used + w, width, limit)
        } else {
            fill_row(rows, rest, row, used, width, limit)
        }
    }
}

/// The rows after all given lines.
pub open spec fn fill(rows: Seq<Seq<char>>, text: Seq<Seq<char>>, width: int, limit: int) -> Filled
    decreases text.len(),
{
    if text.len() == 0 {
        (rows, true)
    } else if rows.len() >= limit {
        (rows, false)
    } else {
        let (next, complete) = fill_row(rows, pieces_of(text[0]), seq![], 0, width, limit);
        if complete {
            fill(next, text.skip(1), width, limit)
        } else {
            (next, false)
        }
    }
}

/// The rows after the comments, each under its author.
pub open spec fn fill_comments(
    rows: Seq<Seq<char>>,
    comments: Seq<Comment>,
    width: int,
    limit: int,
) -> Filled
    decreases comments.len(),
{
    if comments.len() == 0 {
        (rows, true)
    } else {
        let (named, room) = fill(rows, lines("@"@ + comments[0].author@), width, limit);
        if !room {
            (named, false)
        } else {
            let (said, room) = fill(named, lines(comments[0].body@), width, limit);
            if !room {
                (said, false)
            } else {
                fill_comments(said, comments.skip(1), width, limit)
            }
        }
    }
}

pub open spec fn heading(block: Block) -> Seq<char> {
    let label = placement_label(block.placement);
    (if block.expanded {
        "[-]"@
    } else {
        "[+]"@
    }) + " "@ + title(*block.thread) + (if label.len() == 0 {
        ""@
    } else {
        " · "@
    }) + label
}

pub open spec fn row_limit(block: Block) -> int {
    if block.expanded {
        40
    } else {
        3
    }
}

pub open spec fn row_width(width: u16) -> int {
    if width >= 3 {
        width - 2
    } else {
        1
    }
}

/// The rows of a block without the closing remark, and whether they are all.
pub open spec fn filled(block: Block, width: u16) -> Filled {
    let columns = row_width(width);
    let limit = row_limit(block);
    let comments = block.thread.comments@;
    let (top, room) = fill(seq![], lines(heading(block)), columns, limit);
    if !room {
        (top, false)
    } else if block.expanded {
        fill_comments(top, comments, columns, limit)
    } else if comments.len() > 0 {
        let body = lines(comments[0].body@);
        let first = if body.len() > 0 {
            body[0]
        } else {
            seq![]
        };
        fill(top, lines(first), columns, limit)
    } else {
        (top, true)
    }
}

pub open spec fn rows_of(block: Block, width: u16) -> Seq<Seq<char>> {
    let (rows, complete) = filled(block, width);
    if complete {
        rows
    } else {
        rows.push("… :review-open for full discussion"@)
    }
}

/// The cells of a line.
pub fn cells_of(line: &str) -> (r: Vec<Cell>)
    ensures
        pieces(r@) == pieces_of(line@),
        forall|i: int| 0 <= i < r@.len() ==> (#[trigger] r@[i]).text@.len() > 0,
        concat(grapheme_clusters(line@)) == line@,
{
    let parts = graphemes(line);
    let mut r: Vec<Cell> = Vec::new();
    let mut i: usize = 0;
    while i < parts.len()
        invariant
            i <= parts@.len(),
            views(parts@) == grapheme_clusters(line@),
            forall|k: int| 0 <= k < parts@.len() ==> (#[trigger] parts@[k])@.len() > 0,
            forall|k: int| 0 <= k < r@.len() ==> (#[trigger] r@[k]).text@.len() > 0,
            pieces(r@) =~= pieces_of(line@).take(i as int),
        decreases parts@.len() - i,
    {
        let piece = parts[i].clone();
        assert(piece@ == views(parts@)[i as int]);
        let width: usize = width_of(&piece);
        let ghost before = pieces(r@);
        r.push(Cell { text: piece, width });
        assert(pieces(r@) =~= before.push((piece@, width)));
        assert(pieces_of(line@)[i as int] == (piece@, width));
        i += 1;
        assert(pieces_of(line@).take(i as int) =~= pieces_of(line@).take(i - 1).push((piece@, width)));
    }
    assert(pieces_of(line@).take(i as int) =~= pieces_of(line@));
    r
}

/// Put the cells of one line into the rows. `false` once the rows are full.
pub fn append_cells(rows: &mut Vec<String>, cells: &Vec<Cell>, width: usize, limit: usize) -> (r:
    bool)
    requires
        old(rows)@.len() < limit,
        forall|i: int| 0 <= i < cells@.len() ==> (#[trigger] cells@[i]).text@.len() > 0,
    ensures
        (views(final(rows)@), r) == fill_row(
            views(old(rows)@),
            pieces(cells@),
            seq![],
            0,
            width as int,
            limit as int,
        ),
{
    let ghost start = views(rows@);
    let ghost all = pieces(cells@);
    let mut row = String::new();
    let mut empty = true;
    let mut used: usize = 0;
    let mut i: usize = 0;
    assert(all.skip(0) =~= all);
    while i < cells.len()
        invariant
            i <= cells@.len(),
            all == pieces(cells@),
            start == views(old(rows)@),
            forall|k: int| 0 <= k < cells@.len() ==> (#[trigger] cells@[k]).text@.len() > 0,
            used <= width,
            empty ==> used == 0,
            empty == (row@.len() == 0),
            rows@.len() < limit,
            fill_row(start, all, seq![], 0, width as int, limit as int) == fill_row(
                views(rows@),
                all.skip(i as int),
                row@,
                used as int,
                width as int,
                limit as int,
            ),
        decreases cells@.len() - i,
    {
        let w: usize = cells[i].width;
        let ghost piece = cells@[i as int].text@;
        let ghost before = views(rows@);
        assert(all.skip(i as int)[0] == (piece, w));
        assert(all.skip(i as int).skip(1) =~= all.skip(i + 1));
        if w > width - used && !empty {
            let full = row;
            row = String::new();
            rows.push(full);
            assert(views(rows@) =~= before.push(full@));
            empty = true;
            used = 0;
            if rows.len() >= limit {
                return false;
            }
        }
        if w <= width {
            let ghost open = row@;
            row.append(&cells[i].text);
            assert(seq![] + piece =~= piece);
            empty = false;
            used = used + w;
        }
        i += 1;
    }
    let ghost before = views(rows@);
    let ghost last = row@;
    rows.push(row);
    assert(views(rows@) =~= before.push(last));
    true
}

/// Put the lines of a text into the rows. `false` once the rows are full.
fn append_text(rows: &mut Vec<String>, content: &str, width: usize, limit: usize) -> (r: bool)
    ensures
        (views(final(rows)@), r) == fill(
            views(old(rows)@),
            lines(content@),
            width as int,
            limit as int,
        ),
{
    let all = chars(content);
    let parts = split_lines(&all);
    let ghost start = views(rows@);
    let ghost text_lines = lines(content@);
    let mut i: usize = 0;
    assert(text_lines.skip(0) =~= text_lines);
    while i < parts.len()
        invariant
            i <= parts@.len(),
            crate::text::slices(parts@) == text_lines,
            start == views(old(rows)@),
            text_lines == lines(content@),
            fill(start, text_lines, width as int, limit as int) == fill(
                views(rows@),
                text_lines.skip(i as int),
                width as int,
                limit as int,
            ),
        decreases parts@.len() - i,
    {
        assert(text_lines.skip(i as int)[0] == parts@[i as int]@);
        assert(text_lines.skip(i as int).skip(1) =~= text_lines.skip(i + 1));
        if rows.len() >= limit {
            return false;
        }
        let line = text(parts[i]);
        let cells = cells_of(&line);
        if !append_cells(rows, &cells, width, limit) {
            return false;
        }
        i += 1;
    }
    true
}

fn append_comments(rows: &mut Vec<String>, comments: &Vec<Comment>, width: usize, limit: usize) -> (r:
    bool)
    ensures
        (views(final(rows)@), r) == fill_comments(
            views(old(rows)@),
            comments@,
            width as int,
            limit as int,
        ),
{
    let ghost start = views(rows@);
    let mut i: usize = 0;
    assert(comments@.skip(0) =~= comments@);
    while i < comments.len()
        invariant
            i <= comments@.len(),
            start == views(old(rows)@),
            fill_comments(start, comments@, width as int, limit as int) == fill_comments(
                views(rows@),
                comments@.skip(i as int),
                width as int,
                limit as int,
            ),
        decreases comments@.len() - i,
    {
        assert(comments@.skip(i as int)[0] == comments@[i as int]);
        assert(comments@.skip(i as int).skip(1) =~= comments@.skip(i + 1));
        let mut name = "@".to_owned();
        name.append(&comments[i].author);
        if !append_text(rows, &name, width, limit) {
            return false;
        }
        if !append_text(rows, &comments[i].body, width, limit) {
            return false;
        }
        i += 1;
    }
    true
}

/// Identical wrapping is used by layout and drawing, including very narrow views
/// and wide Unicode graphemes. Inline expansion is bounded; opening the
/// discussion shows all text.
pub fn rows(block: &Block, width: u16) -> (r: Vec<String>)
    ensures
        views(r@) == rows_of(*block, width),
{
    let columns: usize = if width >= 3 { width as usize - 2 } else { 1 };
    let limit: usize = if block.expanded { 40 } else { 3 };
    let mut rows: Vec<String> = Vec::new();
    assert(views(rows@) =~= seq![]);
    let label = block.placement.label();
    let mut top = if block.expanded { "[-]" } else { "[+]" }.to_owned();
    top.append(" ");
    top.append(&block.thread.title());
    top.append(if label.is_empty() { "" } else { " · " });
    top.append(label);
    let mut complete = append_text(&mut rows, &top, columns, limit);
    if complete && block.expanded {
        complete = append_comments(&mut rows, &block.thread.comments, columns, limit);
    } else if complete && block.thread.comments.len() > 0 {
        let body = chars(&block.thread.comments[0].body);
        let parts = split_lines(&body);
        let first = if parts.len() > 0 {
            assert(lines(body@)[0] == parts@[0]@);
            text(parts[0])
        } else {
            String::new()
        };
        assert(lines(body@).len() == parts@.len());
        complete = append_text(&mut rows, &first, columns, limit);
    }
    if !complete {
        let ghost before = views(rows@);
        rows.push("… :review-open for full discussion".to_owned());
        assert(views(rows@) =~= before.push("… :review-open for full discussion"@));
    }
    rows
}

// ---------------------------------------------------------------------------
// What wrapping keeps
// ---------------------------------------------------------------------------

proof fn lemma_fill_row(
    rows: Seq<Seq<char>>,
    cells: Seq<(Seq<char>, usize)>,
    row: Seq<char>,
    used: int,
    width: int,
    limit: int,
)
    requires
        rows.len() < limit,
    ensures
        fill_row(rows, cells, row, used, width, limit).0.len() <= limit,
    decreases cells.len(),
{
    if cells.len() > 0 {
        let (piece, w) = cells[0];
        let rest = cells.skip(1);
        if used + w > width && row.len() > 0 {
            if rows.len() + 1 < limit {
                lemma_fill_row(rows.push(row), rest, piece, w as int, width, limit);
                lemma_fill_row(rows.push(row), rest, seq![], 0, width, limit);
            }
        } else {
            lemma_fill_row(rows, rest, row + piece, used + w, width, limit);
            lemma_fill_row(rows, rest, row, used, width, limit);
        }
    }
}

proof fn lemma_fill(rows: Seq<Seq<char>>, text: Seq<Seq<char>>, width: int, limit: int)
    requires
        rows.len() <= limit,
    ensures
        fill(rows, text, width, limit).0.len() <= limit,
    decreases text.len(),
{
    if text.len() > 0 && rows.len() < limit {
        let cells = pieces_of(text[0]);
        lemma_fill_row(rows, cells, seq![], 0, width, limit);
        lemma_fill(
            fill_row(rows, cells, seq![], 0, width, limit).0,
            text.skip(1),
            width,
            limit,
        );
    }
}

proof fn lemma_fill_comments(
    rows: Seq<Seq<char>>,
    comments: Seq<Comment>,
    width: int,
    limit: int,
)
    requires
        rows.len() <= limit,
    ensures
        fill_comments(rows, comments, width, limit).0.len() <= limit,
    decreases comments.len(),
{
    if comments.len() > 0 {
        let name = lines("@"@ + comments[0].author@);
        lemma_fill(rows, name, width, limit);
        let named = fill(rows, name, width, limit).0;
        lemma_fill(named, lines(comments[0].body@), width, limit);
        let said = fill(named, lines(comments[0].body@), width, limit).0;
        lemma_fill_comments(said, comments.skip(1), width, limit);
    }
}

/// A block takes at most its limit of rows, and one more that says so where
/// they are not all.
pub proof fn blocks_are_bounded(block: Block, width: u16)
    ensures
        filled(block, width).0.len() <= row_limit(block),
        rows_of(block, width).len() <= row_limit(block) + 1,
        !filled(block, width).1 ==> rows_of(block, width).last()
            == "… :review-open for full discussion"@,
{
    let columns = row_width(width);
    let limit = row_limit(block);
    let comments = block.thread.comments@;
    lemma_fill(seq![], lines(heading(block)), columns, limit);
    let top = fill(seq![], lines(heading(block)), columns, limit).0;
    lemma_fill_comments(top, comments, columns, limit);
    if comments.len() > 0 {
        let body = lines(comments[0].body@);
        let first = if body.len() > 0 {
            body[0]
        } else {
            seq![]
        };
        lemma_fill(top, lines(first), columns, limit);
    }
}

/// The texts of cells, one after another.
pub open spec fn spelled(cells: Seq<(Seq<char>, usize)>) -> Seq<char>
    decreases cells.len(),
{
    if cells.len() == 0 {
        seq![]
    } else {
        cells[0].0 + spelled(cells.skip(1))
    }
}

proof fn lemma_kept(
    rows: Seq<Seq<char>>,
    cells: Seq<(Seq<char>, usize)>,
    row: Seq<char>,
    used: int,
    width: int,
    limit: int,
)
    requires
        forall|i: int| 0 <= i < cells.len() ==> (#[trigger] cells[i]).1 <= width,
        fill_row(rows, cells, row, used, width, limit).1,
    ensures
        concat(fill_row(rows, cells, row, used, width, limit).0) == concat(rows) + row + spelled(
            cells,
        ),
    decreases cells.len(),
{
    assert(rows.push(row).drop_last() =~= rows);
    if cells.len() == 0 {
        assert(concat(rows) + row + spelled(cells) =~= concat(rows) + row);
    } else {
        let (piece, w) = cells[0];
        let rest = cells.skip(1);
        assert forall|i: int| 0 <= i < rest.len() implies (#[trigger] rest[i]).1 <= width by {
            assert(rest[i] == cells[i + 1]);
        }
        if used + w > width && row.len() > 0 {
            lemma_kept(rows.push(row), rest, piece, w as int, width, limit);
            assert(concat(rows) + row + piece + spelled(rest) =~= concat(rows) + row + (piece
                + spelled(rest)));
        } else {
            lemma_kept(rows, rest, row + piece, used + w, width, limit);
            assert(concat(rows) + (row + piece) + spelled(rest) =~= concat(rows) + row + (piece
                + spelled(rest)));
        }
    }
}

/// Where all cells of a line fit into a row and there is room for all rows,
/// the rows hold the line, nothing left out.
pub proof fn wrapping_keeps_the_text(cells: Seq<(Seq<char>, usize)>, width: int, limit: int)
    requires
        forall|i: int| 0 <= i < cells.len() ==> (#[trigger] cells[i]).1 <= width,
        fill_row(seq![], cells, seq![], 0, width, limit).1,
    ensures
        concat(fill_row(seq![], cells, seq![], 0, width, limit).0) == spelled(cells),
{
    lemma_kept(seq![], cells, seq![], 0, width, limit);
    let none: Seq<Seq<char>> = seq![];
    let empty: Seq<char> = seq![];
    assert(concat(none) + empty + spelled(cells) =~= spelled(cells));
}

/// The columns that pieces of a row take, one after another.
pub open spec fn columns_of(parts: Seq<Seq<char>>) -> nat
    decreases parts.len(),
{
    if parts.len() == 0 {
        0
    } else {
        columns_of(parts.drop_last()) + display_width(parts.last()) as nat
    }
}

/// The row is drawn in pieces that take no more than the given columns.
pub open spec fn fits(row: Seq<char>, columns: int) -> bool {
    exists|parts: Seq<Seq<char>>| #[trigger] columns_of(parts) <= columns && concat(parts) == row
}

pub open spec fn all_fit(rows: Seq<Seq<char>>, columns: int) -> bool {
    forall|i: int| 0 <= i < rows.len() ==> fits(#[trigger] rows[i], columns)
}

proof fn lemma_fits(rows: Seq<Seq<char>>, row: Seq<char>, parts: Seq<Seq<char>>, columns: int)
    requires
        all_fit(rows, columns),
        concat(parts) == row,
        columns_of(parts) <= columns,
    ensures
        all_fit(rows.push(row), columns),
{
    let more = rows.push(row);
    assert forall|i: int| 0 <= i < more.len() implies fits(#[trigger] more[i], columns) by {
        if i < rows.len() {
            assert(more[i] == rows[i]);
        } else {
            assert(columns_of(parts) <= columns);
        }
    }
}

proof fn lemma_row_fits(
    rows: Seq<Seq<char>>,
    cells: Seq<(Seq<char>, usize)>,
    row: Seq<char>,
    parts: Seq<Seq<char>>,
    used: int,
    width: int,
    limit: int,
)
    requires
        all_fit(rows, width),
        forall|i: int|
            0 <= i < cells.len() ==> (#[trigger] cells[i]).1 == display_width(cells[i].0),
        concat(parts) == row,
        columns_of(parts) <= used,
        columns_of(parts) <= width,
        row.len() == 0 ==> parts.len() == 0,
    ensures
        all_fit(fill_row(rows, cells, row, used, width, limit).0, width),
    decreases cells.len(),
{
    lemma_fits(rows, row, parts, width);
    if cells.len() > 0 {
        let (piece, w) = cells[0];
        let rest = cells.skip(1);
        let none: Seq<Seq<char>> = seq![];
        let alone = if piece.len() == 0 {
            none
        } else {
            seq![piece]
        };
        assert(w == display_width(piece));
        assert forall|i: int| 0 <= i < rest.len() implies (#[trigger] rest[i]).1 == display_width(
            rest[i].0,
        ) by {
            assert(rest[i] == cells[i + 1]);
        }
        assert(seq![piece].drop_last() =~= none);
        assert(concat(none) + piece =~= piece);
        assert(columns_of(seq![piece]) == columns_of(none) + w);
        assert(concat(alone) =~= piece);
        if used + w > width && row.len() > 0 {
            if rows.len() + 1 < limit {
                if w <= width {
                    lemma_row_fits(rows.push(row), rest, piece, alone, w as int, width, limit);
                } else {
                    lemma_row_fits(rows.push(row), rest, seq![], none, 0, width, limit);
                }
            }
        } else if w <= width {
            if row.len() == 0 {
                assert(row + piece =~= piece);
                lemma_row_fits(rows, rest, row + piece, alone, used + w, width, limit);
            } else {
                let more = parts.push(piece);
                assert(more.drop_last() =~= parts);
                lemma_row_fits(rows, rest, row + piece, more, used + w, width, limit);
            }
        } else {
            lemma_row_fits(rows, rest, row, parts, used, width, limit);
        }
    }
}

proof fn lemma_text_fits(rows: Seq<Seq<char>>, text: Seq<Seq<char>>, width: int, limit: int)
    requires
        all_fit(rows, width),
        width >= 0,
    ensures
        all_fit(fill(rows, text, width, limit).0, width),
    decreases text.len(),
{
    if text.len() > 0 && rows.len() < limit {
        let cells = pieces_of(text[0]);
        lemma_row_fits(rows, cells, seq![], seq![], 0, width, limit);
        let (next, complete) = fill_row(rows, cells, seq![], 0, width, limit);
        if complete {
            lemma_text_fits(next, text.skip(1), width, limit);
        }
    }
}

proof fn lemma_comments_fit(
    rows: Seq<Seq<char>>,
    comments: Seq<Comment>,
    width: int,
    limit: int,
)
    requires
        all_fit(rows, width),
        width >= 0,
    ensures
        all_fit(fill_comments(rows, comments, width, limit).0, width),
    decreases comments.len(),
{
    if comments.len() > 0 {
        let name = lines("@"@ + comments[0].author@);
        let body = lines(comments[0].body@);
        lemma_text_fits(rows, name, width, limit);
        let named = fill(rows, name, width, limit).0;
        lemma_text_fits(named, body, width, limit);
        lemma_comments_fit(fill(named, body, width, limit).0, comments.skip(1), width, limit);
    }
}

/// Every row of a block, but the remark that closes an incomplete one, fits into the
/// width of the view beside its border.
pub proof fn rows_fit_the_width(block: Block, width: u16)
    ensures
        all_fit(filled(block, width).0, row_width(width)),
        rows_of(block, width) == filled(block, width).0 || rows_of(block, width) == filled(
            block,
            width,
        ).0.push("… :review-open for full discussion"@),
{
    let columns = row_width(width);
    let limit = row_limit(block);
    let comments = block.thread.comments@;
    lemma_text_fits(seq![], lines(heading(block)), columns, limit);
    let top = fill(seq![], lines(heading(block)), columns, limit).0;
    lemma_comments_fit(top, comments, columns, limit);
    if comments.len() > 0 {
        let body = lines(comments[0].body@);
        let first = if body.len() > 0 {
            body[0]
        } else {
            seq![]
        };
        lemma_text_fits(top, lines(first), columns, limit);
    }
}

// ---------------------------------------------------------------------------
// Layout
// ---------------------------------------------------------------------------

/// The number of blocks before the first one that is anchored at or after `pos`.
pub open spec fn anchored_before(blocks: Seq<Block>, pos: int) -> int
    decreases blocks.len(),
{
    if blocks.len() > 0 && blocks[0].anchor < pos {
        1 + anchored_before(blocks.skip(1), pos)
    } else {
        0
    }
}

/// The anchor of block `n`; past the end there is none.
pub open spec fn anchor_of(blocks: Seq<Block>, n: int) -> usize {
    if 0 <= n < blocks.len() {
        blocks[n].anchor
    } else {
        usize::MAX
    }
}

/// The rows of the blocks from `from` to `to`.
pub open spec fn rows_between(blocks: Seq<Block>, from: int, to: int, width: u16) -> Seq<Seq<char>>
    decreases to - from,
{
    if to <= from {
        seq![]
    } else {
        rows_between(blocks, from, to - 1, width) + rows_of(blocks[to - 1], width)
    }
}

/// Shared accumulator ensures the formatter reserves exactly the rows drawn by
/// the terminal decoration. Multiple discussions can share one anchor.
pub struct Layout<'a> {
    blocks: &'a [Block],
    width: u16,
    next: usize,
    pending: Range<usize>,
}

impl<'a> Layout<'a> {
    pub closed spec fn blocks(self) -> Seq<Block> {
        self.blocks@
    }

    pub closed spec fn width(self) -> u16 {
        self.width
    }

    /// The block that comes next.
    pub closed spec fn next(self) -> int {
        self.next as int
    }

    /// The blocks that were reached and are still to be taken.
    pub closed spec fn pending(self) -> (int, int) {
        (self.pending.start as int, self.pending.end as int)
    }

    pub fn new(blocks: &'a [Block], width: u16) -> (r: Layout<'a>)
        ensures
            r.blocks() == blocks@,
            r.width() == width,
            r.next() == 0,
            r.pending() == (0int, 0int),
    {
        Layout { blocks, width, next: 0, pending: 0..0 }
    }

    /// Start at position `pos`. Returns the next anchor.
    pub fn reset(&mut self, pos: usize) -> (r: usize)
        ensures
            final(self).blocks() == old(self).blocks(),
            final(self).width() == old(self).width(),
            final(self).next() == anchored_before(old(self).blocks(), pos as int),
            final(self).next() <= final(self).blocks().len(),
            final(self).pending() == (final(self).next(), final(self).next()),
            r == anchor_of(final(self).blocks(), final(self).next()),
    {
        let blocks = self.blocks;
        let mut n: usize = 0;
        assert(blocks@.skip(0) =~= blocks@);
        while n < blocks.len() && blocks[n].anchor < pos
            invariant
                n <= blocks@.len(),
                anchored_before(blocks@, pos as int) == n + anchored_before(
                    blocks@.skip(n as int),
                    pos as int,
                ),
            decreases blocks@.len() - n,
        {
            assert(blocks@.skip(n as int)[0] == blocks@[n as int]);
            assert(blocks@.skip(n as int).skip(1) =~= blocks@.skip(n + 1));
            n += 1;
        }
        assert(n < blocks@.len() ==> blocks@.skip(n as int)[0] == blocks@[n as int]);
        self.next = n;
        self.pending = n..n;
        self.next_anchor()
    }

    fn next_anchor(&self) -> (r: usize)
        ensures
            r == anchor_of(self.blocks(), self.next()),
    {
        if self.next < self.blocks.len() {
            self.blocks[self.next].anchor
        } else {
            usize::MAX
        }
    }

    /// The next anchor has been reached. Returns the one after it.
    pub fn anchor(&mut self) -> (r: usize)
        requires
            old(self).next() < usize::MAX,
        ensures
            final(self).blocks() == old(self).blocks(),
            final(self).width() == old(self).width(),
            final(self).next() == old(self).next() + 1,
            final(self).pending() == (old(self).pending().0, old(self).next() + 1),
            r == anchor_of(final(self).blocks(), final(self).next()),
    {
        self.next = self.next + 1;
        self.pending = self.pending.start..self.next;
        self.next_anchor()
    }

    /// The rows of the blocks that were reached.
    pub fn take_rows(&mut self) -> (r: Vec<String>)
        requires
            old(self).pending().0 <= old(self).pending().1 <= old(self).blocks().len(),
        ensures
            final(self).blocks() == old(self).blocks(),
            final(self).width() == old(self).width(),
            final(self).next() == old(self).next(),
            final(self).pending() == (old(self).pending().1, old(self).pending().1),
            views(r@) == rows_between(
                old(self).blocks(),
                old(self).pending().0,
                old(self).pending().1,
                old(self).width(),
            ),
    {
        let blocks = self.blocks;
        let width: u16 = self.width;
        let from: usize = self.pending.start;
        let to: usize = self.pending.end;
        let mut all: Vec<String> = Vec::new();
        assert(views(all@) =~= seq![]);
        let mut n: usize = from;
        while n < to
            invariant
                from <= n <= to <= blocks@.len(),
                views(all@) == rows_between(blocks@, from as int, n as int, width),
            decreases to - n,
        {
            let ghost before = all@;
            let mut more = rows(&blocks[n], width);
            let ghost added = more@;
            all.append(&mut more);
            assert(all@ =~= before + added);
            assert(views(all@) =~= views(before) + views(added));
            n += 1;
        }
        self.pending = to..to;
        all
    }
}

proof fn lemma_rows_between(blocks: Seq<Block>, from: int, to: int, width: u16)
    requires
        from <= to,
    ensures
        rows_between(blocks, from, to, width).len() <= 41 * (to - from),
    decreases to - from,
{
    if from < to {
        lemma_rows_between(blocks, from, to - 1, width);
        blocks_are_bounded(blocks[to - 1], width);
    }
}

/// Draws the discussions of a view below the code.
pub struct Reviews<'a> {
    pub layout: Layout<'a>,
}

/// The rows as they are drawn, `first` being the row of the first one.
pub open spec fn drawn(rows: Seq<Seq<char>>, first: int) -> Seq<(int, Seq<char>)> {
    Seq::new(rows.len(), |i: int| (first + i, "│ "@ + rows[i]))
}

/// A text to be drawn in a row.
#[derive(Debug)]
pub struct VirtualText {
    pub row: usize,
    pub text: String,
}

pub open spec fn texts(v: Seq<VirtualText>) -> Seq<(int, Seq<char>)> {
    v.map_values(|t: VirtualText| (t.row as int, t.text@))
}

impl<'a> Reviews<'a> {
    pub fn new(blocks: &'a [Block], width: u16) -> (r: Reviews<'a>)
        ensures
            r.layout.blocks() == blocks@,
            r.layout.width() == width,
            r.layout.next() == 0,
            r.layout.pending() == (0int, 0int),
    {
        Reviews { layout: Layout::new(blocks, width) }
    }

    /// What is drawn below the code line at `visual_line`, `offset` rows being
    /// taken already. As many rows are used as the layout reserves.
    pub fn render(&mut self, visual_line: u16, offset: usize) -> (r: Vec<VirtualText>)
        requires
            old(self).layout.pending().0 <= old(self).layout.pending().1
                <= old(self).layout.blocks().len(),
            visual_line + offset + 41 * (old(self).layout.pending().1
                - old(self).layout.pending().0) <= usize::MAX,
        ensures
            texts(r@) == drawn(
                rows_between(
                    old(self).layout.blocks(),
                    old(self).layout.pending().0,
                    old(self).layout.pending().1,
                    old(self).layout.width(),
                ),
                visual_line + offset,
            ),
            final(self).layout.blocks() == old(self).layout.blocks(),
            final(self).layout.width() == old(self).layout.width(),
            final(self).layout.next() == old(self).layout.next(),
            final(self).layout.pending() == (
                old(self).layout.pending().1,
                old(self).layout.pending().1,
            ),
    {
        proof {
            lemma_rows_between(
                self.layout.blocks(),
                self.layout.pending().0,
                self.layout.pending().1,
                self.layout.width(),
            );
        }
        let rows = self.layout.take_rows();
        let ghost all = views(rows@);
        let first: usize = visual_line as usize + offset;
        let mut r: Vec<VirtualText> = Vec::new();
        let mut i: usize = 0;
        while i < rows.len()
            invariant
                i <= rows@.len(),
                all == views(rows@),
                first + rows@.len() <= usize::MAX,
                texts(r@) =~= drawn(all, first as int).take(i as int),
            decreases rows@.len() - i,
        {
            let mut text = "│ ".to_owned();
            text.append(&rows[i]);
            let ghost before = texts(r@);
            r.push(VirtualText { row: first + i, text });
            assert(texts(r@) =~= before.push(((first + i) as int, "│ "@ + all[i as int])));
            i += 1;
        }
        assert(drawn(all, first as int).take(i as int) =~= drawn(all, first as int));
        r
    }
}

/// The formatter reserves what is drawn: from one state of the layout, the rows
/// drawn are as many as the rows taken.
pub proof fn drawing_takes_the_reserved_rows(layout: Layout, first: int)
    ensures
        drawn(
            rows_between(layout.blocks(), layout.pending().0, layout.pending().1, layout.width()),
            first,
        ).len() == rows_between(
            layout.blocks(),
            layout.pending().0,
            layout.pending().1,
            layout.width(),
        ).len(),
{
}

/// The layout goes on with the first discussion that is anchored at or after the
/// position.
pub proof fn discussions_before_the_position_are_passed(blocks: Seq<Block>, pos: int)
    ensures
        ({
            let n = anchored_before(blocks, pos);
            &&& 0 <= n <= blocks.len()
            &&& forall|i: int| 0 <= i < n ==> (#[trigger] blocks[i]).anchor < pos
            &&& n < blocks.len() ==> blocks[n].anchor >= pos
        }),
    decreases blocks.len(),
{
    if blocks.len() > 0 && blocks[0].anchor < pos {
        let t = blocks.skip(1);
        discussions_before_the_position_are_passed(t, pos);
        assert forall|i: int| 0 <= i < anchored_before(blocks, pos) implies (
        #[trigger] blocks[i]).anchor < pos by {
            if i > 0 {
                assert(blocks[i] == t[i - 1]);
            }
        }
    }
}

/// Discussions that are reached together are drawn one below another, each with all of
/// its rows.
pub proof fn discussions_are_drawn_one_below_another(
    blocks: Seq<Block>,
    from: int,
    mid: int,
    to: int,
    width: u16,
)
    requires
        from <= mid <= to,
    ensures
        rows_between(blocks, from, to, width) == rows_between(blocks, from, mid, width)
            + rows_between(blocks, mid, to, width),
        rows_between(blocks, from, from + 1, width) == rows_of(blocks[from], width),
    decreases to - mid,
{
    reveal_with_fuel(rows_between, 2);
    assert(rows_between(blocks, from, from + 1, width) =~= rows_of(blocks[from], width));
    if mid < to {
        discussions_are_drawn_one_below_another(blocks, from, mid, to - 1, width);
    }
    assert(rows_between(blocks, from, to, width) =~= rows_between(blocks, from, mid, width)
        + rows_between(blocks, mid, to, width));
}

/// The heading shows whether the discussion is expanded, what it is about, and what
/// became of its place.
pub proof fn headings_tell_what_can_be_done(block: Block)
    ensures
        block.expanded ==> heading(block).take(4) == "[-] "@,
        !block.expanded ==> heading(block).take(4) == "[+] "@,
        placement_label(block.placement).len() == 0 ==> heading(block).skip(4) == title(
            *block.thread,
        ),
        placement_label(block.placement).len() > 0 ==> heading(block).skip(4) == title(
            *block.thread,
        ) + " · "@ + placement_label(block.placement),
{
    reveal_strlit("[-] ");
    reveal_strlit("[+] ");
    reveal_strlit("[-]");
    reveal_strlit("[+]");
    reveal_strlit(" ");
    reveal_strlit("");
    let h = heading(block);
    let label = placement_label(block.placement);
    if block.expanded {
        assert(h.take(4) =~= "[-] "@);
    } else {
        assert(h.take(4) =~= "[+] "@);
    }
    if label.len() == 0 {
        assert(h.skip(4) =~= title(*block.thread));
    } else {
        assert(h.skip(4) =~= title(*block.thread) + " · "@ + label);
    }
}

/// A collapsed discussion takes a few rows, an expanded one as many as are readable
/// below the code.
pub proof fn collapsed_discussions_are_short(block: Block, width: u16)
    ensures
        !block.expanded ==> rows_of(block, width).len() <= 4,
        rows_of(block, width).len() <= 41,
{
    blocks_are_bounded(block, width);
}

/// A line whose cells fit into the row below another takes one row, as it is.
pub proof fn short_lines_take_one_row(
    rows: Seq<Seq<char>>,
    cells: Seq<(Seq<char>, usize)>,
    row: Seq<char>,
    used: int,
    width: int,
    limit: int,
)
    requires
        used + widths(cells) <= width,
        0 <= used,
    ensures
        fill_row(rows, cells, row, used, width, limit) == (rows.push(row + spelled(cells)), true),
    decreases cells.len(),
{
    if cells.len() > 0 {
        let rest = cells.skip(1);
        lemma_widths(rest);
        short_lines_take_one_row(rows, rest, row + cells[0].0, used + cells[0].1, width, limit);
        assert(row + cells[0].0 + spelled(rest) =~= row + spelled(cells));
    } else {
        assert(row + spelled(cells) =~= row);
    }
}

/// The columns that cells take.
pub open spec fn widths(cells: Seq<(Seq<char>, usize)>) -> int
    decreases cells.len(),
{
    if cells.len() == 0 {
        0
    } else {
        cells[0].1 + widths(cells.skip(1))
    }
}

proof fn lemma_widths(cells: Seq<(Seq<char>, usize)>)
    ensures
        widths(cells) >= 0,
    decreases cells.len(),
{
    if cells.len() > 0 {
        lemma_widths(cells.skip(1));
    }
}

/// Rows are drawn in order, each on the row below the one before and behind a border.
pub proof fn rows_are_drawn_in_order(rows: Seq<Seq<char>>, first: int, i: int)
    requires
        0 <= i < rows.len(),
    ensures
        drawn(rows, first).len() == rows.len(),
        drawn(rows, first)[i].0 == first + i,
        crate::text::ends_with(drawn(rows, first)[i].1, rows[i]),
{
    let border = "│ "@;
    let all = border + rows[i];
    assert(all.skip(all.len() - rows[i].len()) =~= rows[i]);
}

} // verus!
