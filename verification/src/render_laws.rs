//! What the screen shows: which line in which row, the scrollbar, the status line, and the images.
use vstd::prelude::*;
use vstd::string::*;
use crate::ansi::LineModel;
use crate::chunk_laws;
use crate::chunks;
use crate::chunks::Highlight;
use crate::document;
use crate::image::{ImageProtocol, InlineImage};
use crate::render;
use crate::screen;
use crate::screen::{LinkContext, OpModel};
use crate::screen_laws;
use crate::search::SearchMatch;
use crate::sixel;
use crate::state;
use crate::state::{SearchModel, StateModel};
use crate::state_laws;
use crate::strings;
use crate::style::Attribute;

verus! {

// ---------------------------------------------------------------------------
// Text
// ---------------------------------------------------------------------------

proof fn lemma_fresh_row(row: int)
    ensures
        screen_laws::printed(render::fresh_row(row)) == Seq::<char>::empty(),
        render::fresh_row(row).len() == 2,
        render::fresh_row(row)[0] == (OpModel::MoveTo { column: 0, row: row as u16 }),
        render::fresh_row(row)[1] == OpModel::ClearLine,
{
    screen_laws::lemma_silent(render::fresh_row(row));
}

/// What is drawn for a row: it goes to the row and clears it, and what it prints is the text of its
/// line.
proof fn lemma_row(m: StateModel, lines: Seq<LineModel>, row: int, width: int)
    requires
        0 <= m.scroll,
        0 <= row,
        0 <= width,
        forall|i: int|
            0 <= i < lines.len() ==> (#[trigger] lines[i]).partitioned()
                && screen_laws::escape_free(lines[i].plain),
        render::row_drawable(m, lines, row, width),
    ensures
        ({
            let ops = render::row_ops(m, lines, row, width);
            &&& ops.len() >= 2
            &&& ops[0] == (OpModel::MoveTo { column: 0, row: row as u16 })
            &&& ops[1] == OpModel::ClearLine
            &&& forall|j: int| 1 <= j < ops.len() ==> !(#[trigger] ops[j] is MoveTo)
            &&& m.scroll + row < lines.len() ==> screen_laws::shown_of(
                lines[m.scroll + row].plain,
                width,
                screen_laws::printed(ops),
            )
            &&& m.scroll + row >= lines.len() ==> screen_laws::printed(ops).len() == 0
        }),
{
    let fresh = render::fresh_row(row);
    let ops = render::row_ops(m, lines, row, width);
    let i = m.scroll + row;
    lemma_fresh_row(row);
    if i < lines.len() {
        let plain = lines[i].plain;
        if width > 0 {
            let all = render::shown_chunks(m, lines, i)->0;
            chunks::law_chunks_keep_text(lines[i], render::highlights_of(m.search, i));
            let line = screen::line_ops(all, i, width, render::link_context(m));
            screen_laws::law_line_printed(all, i, width, render::link_context(m));
            screen_laws::lemma_printed(fresh, line);
            assert(Seq::<char>::empty() + screen_laws::printed(line) =~= screen_laws::printed(
                line,
            ));
            assert forall|j: int| 1 <= j < ops.len() implies !(#[trigger] ops[j] is MoveTo) by {
                if j >= 2 {
                    assert(ops[j] == line[j - 2]);
                }
            }
        } else {
            assert(plain.subrange(0, 0) =~= Seq::<char>::empty());
            assert(strings::text_columns(Seq::<char>::empty()) == 0);
        }
    }
}

/// What is drawn behind row `r`, up to row `n`.
spec fn rows_behind(m: StateModel, lines: Seq<LineModel>, width: int, r: int, n: int) -> Seq<OpModel>
    decreases n - r,
{
    if r + 1 >= n {
        seq![]
    } else {
        render::row_ops(m, lines, r + 1, width) + rows_behind(m, lines, width, r + 1, n)
    }
}

proof fn lemma_rows_parts(m: StateModel, lines: Seq<LineModel>, width: int, r: int, n: int)
    requires
        0 <= r < n,
    ensures
        render::rows_ops(m, lines, width, n) == render::rows_ops(m, lines, width, r)
            + render::row_ops(m, lines, r, width) + rows_behind(m, lines, width, r, n),
    decreases n - r,
{
    let before = render::rows_ops(m, lines, width, r);
    let row = render::row_ops(m, lines, r, width);
    let behind = rows_behind(m, lines, width, r, n);
    assert(render::rows_ops(m, lines, width, r + 1) == before + row);
    if r + 1 < n {
        lemma_rows_parts(m, lines, width, r + 1, n);
        let next = render::row_ops(m, lines, r + 1, width);
        let rest = rows_behind(m, lines, width, r + 1, n);
        assert((before + row) + next + rest =~= before + row + (next + rest));
    } else {
        assert(before + row + behind =~= before + row);
    }
}

/// Operations `row` between others: they go to one place first, and others follow.
proof fn lemma_between(before: Seq<OpModel>, row: Seq<OpModel>, after: Seq<OpModel>)
    requires
        row.len() >= 2,
        forall|j: int| 1 <= j < row.len() ==> !(#[trigger] row[j] is MoveTo),
        after.len() > 0,
    ensures
        ({
            let ops = before + row + after;
            let from = before.len() as int;
            let to = from + row.len();
            &&& 0 <= from < to < ops.len()
            &&& ops[from] == row[0]
            &&& ops[from + 1] == row[1]
            &&& ops[to] == after[0]
            &&& ops.subrange(from, to) == row
            &&& forall|j: int| from < j < to ==> !(#[trigger] ops[j] is MoveTo)
        }),
{
    let ops = before + row + after;
    let from = before.len() as int;
    let to = from + row.len();
    assert(ops.subrange(from, to) =~= row);
    assert forall|j: int| from < j < to implies !(#[trigger] ops[j] is MoveTo) by {
        assert(ops[j] == row[j - from]);
    }
}

proof fn lemma_bar_start(column: u16, start: int, size: int, n: int)
    requires
        0 < n,
    ensures
        render::bar_rows(column, start, size, n).len() > 0,
        render::bar_rows(column, start, size, n)[0] is MoveTo,
    decreases n,
{
    if n > 1 {
        lemma_bar_start(column, start, size, n - 1);
    } else {
        assert(render::bar_rows(column, start, size, 0).len() == 0);
    }
}

/// What is drawn behind the rows of text.
spec fn behind_rows(
    m: StateModel,
    images: Seq<InlineImage>,
    width: int,
    previous_height: int,
) -> Seq<OpModel> {
    let last = state::minus(width, 1);
    render::bar_ops(m, last as u16) + render::status_ops(m, width, m.height as u16)
        + render::leftover_ops(m.last_terminal_height, previous_height) + seq![OpModel::Flush]
        + render::images_ops(
        document::overlapping(images, m.scroll, m.height),
        m.scroll,
        m.height,
        m.cell_h,
    ) + seq![OpModel::Flush]
}

proof fn lemma_behind_rows(
    m: StateModel,
    lines: Seq<LineModel>,
    images: Seq<InlineImage>,
    width: int,
    previous_height: int,
)
    ensures
        render::screen_ops(m, lines, images, width, previous_height) == render::rows_ops(
            m,
            lines,
            state::minus(width, 1),
            m.height,
        ) + behind_rows(m, images, width, previous_height),
        behind_rows(m, images, width, previous_height).len() > 0,
        behind_rows(m, images, width, previous_height)[0] is MoveTo,
{
    let last = state::minus(width, 1);
    let rows = render::rows_ops(m, lines, last, m.height);
    assert(render::screen_ops(m, lines, images, width, previous_height) =~= rows + behind_rows(
        m,
        images,
        width,
        previous_height,
    ));
    if let Some((start, size)) = state::geometry(m) {
        if m.height > 0 {
            lemma_bar_start(last as u16, start, size, m.height);
        } else {
            assert(render::bar_rows(last as u16, start, size, m.height).len() == 0);
        }
    }
}

/// Every row of the viewport shows its line. The screen is drawn by going to column 0 of row `r` and
/// clearing it; what is printed from there up to the next place gone to is, hyperlink sequences
/// aside, the plain text of line `scroll + r`, as much of it as fits before the last column. Behind
/// the end of the text nothing is printed. The places are the ones returned.
pub proof fn law_rows_show_lines(
    m: StateModel,
    lines: Seq<LineModel>,
    images: Seq<InlineImage>,
    width: int,
    previous_height: int,
    r: int,
) -> (places: (int, int))
    requires
        state::state_ok(m),
        m.total == lines.len(),
        0 <= width,
        0 <= r < m.height,
        forall|i: int|
            0 <= i < lines.len() ==> (#[trigger] lines[i]).partitioned()
                && screen_laws::escape_free(lines[i].plain),
        render::drawable(m, lines, images, width),
    ensures
        ({
            let ops = render::screen_ops(m, lines, images, width, previous_height);
            let (from, to) = places;
            let columns = if width == 0 {
                0
            } else {
                width - 1
            };
            let shown = screen_laws::printed(ops.subrange(from, to));
            &&& 0 <= from < to < ops.len()
            &&& ops[from] == (OpModel::MoveTo { column: 0, row: r as u16 })
            &&& ops[from + 1] == OpModel::ClearLine
            &&& ops[to] is MoveTo
            &&& forall|j: int| from < j < to ==> !(#[trigger] ops[j] is MoveTo)
            &&& m.scroll + r < m.total ==> screen_laws::shown_of(
                lines[m.scroll + r].plain,
                columns,
                shown,
            )
            &&& m.scroll + r >= m.total ==> shown.len() == 0
        }),
{
    let last = state::minus(width, 1);
    let behind = behind_rows(m, images, width, previous_height);
    lemma_behind_rows(m, lines, images, width, previous_height);
    let before = render::rows_ops(m, lines, last, r);
    let row = render::row_ops(m, lines, r, last);
    let rest = rows_behind(m, lines, last, r, m.height);
    lemma_rows_parts(m, lines, last, r, m.height);
    assert(render::row_drawable(m, lines, r, last));
    lemma_row(m, lines, r, last);
    let after = rest + behind;
    assert(before + row + rest + behind =~= before + row + after);
    assert(after.len() > 0 && after[0] is MoveTo) by {
        if r + 1 < m.height {
            assert(render::row_drawable(m, lines, r + 1, last));
            lemma_row(m, lines, r + 1, last);
            assert(after[0] == render::row_ops(m, lines, r + 1, last)[0]);
        } else {
            assert(after[0] == behind[0]);
        }
    }
    lemma_between(before, row, after);
    (before.len() as int, (before.len() + row.len()) as int)
}

/// The screen is drawn from a state that fits the terminal: all rows but the last are for text, and
/// the text stays where it is, or as near to it as it can be.
pub proof fn law_screen_fits(m: StateModel, total: int, width: int, height: int)
    requires
        state::state_ok(m),
        state::limits(total, height - 1),
        0 < height,
    ensures
        ({
            let n = render::fitted(m, total, width, height);
            &&& n.height == height - 1
            &&& n.total == total
            &&& n.last_terminal_width == width
            &&& n.last_terminal_height == height
            &&& state_laws::scrolled_near(
                StateModel {
                    total,
                    height: height - 1,
                    last_terminal_width: width,
                    last_terminal_height: height,
                    ..m
                },
                m.scroll,
                n,
            )
        }),
{
    reveal(state_laws::scrolled_near);
}

// ---------------------------------------------------------------------------
// Scrollbar
// ---------------------------------------------------------------------------

proof fn lemma_bar_rows_start(column: u16, start: int, size: int, r: int, n: int)
    requires
        0 <= r <= n,
    ensures
        render::bar_rows(column, start, size, r).len() <= render::bar_rows(
            column,
            start,
            size,
            n,
        ).len(),
        render::bar_rows(column, start, size, n).subrange(
            0,
            render::bar_rows(column, start, size, r).len() as int,
        ) == render::bar_rows(column, start, size, r),
    decreases n,
{
    let a = render::bar_rows(column, start, size, r);
    let b = render::bar_rows(column, start, size, n);
    if r < n {
        lemma_bar_rows_start(column, start, size, r, n - 1);
        let c = render::bar_rows(column, start, size, n - 1);
        assert(b.subrange(0, a.len() as int) =~= c.subrange(0, a.len() as int));
    } else {
        assert(b.subrange(0, b.len() as int) =~= b);
    }
}

/// The scrollbar is a column of blanks, one in every row of the viewport, reversed where the knob is;
/// the blank in the row below is plain.
pub proof fn law_scrollbar_drawn(m: StateModel, column: u16, r: int) -> (at: int)
    requires
        state::state_ok(m),
        0 <= r < m.height,
        m.height < m.total,
    ensures
        ({
            let ops = render::bar_ops(m, column);
            let (start, size) = state::geometry(m)->0;
            &&& 0 <= at
            &&& at + 1 < ops.len()
            &&& ops[at] == (OpModel::MoveTo { column, row: r as u16 })
            &&& start <= r < start + size ==> at + 3 < ops.len() && ops[at + 1]
                == OpModel::SetAttribute(Attribute::Reverse) && ops[at + 2] == OpModel::Print(
                seq![' '],
            ) && ops[at + 3] == OpModel::SetAttribute(Attribute::NoReverse)
            &&& r < start || start + size <= r ==> ops[at + 1] == OpModel::Print(seq![' '])
            &&& ops[ops.len() - 2] == (OpModel::MoveTo { column, row: m.height as u16 })
            &&& ops[ops.len() - 1] == OpModel::Print(seq![' '])
        }),
{
    reveal_strlit(" ");
    assert(" "@ =~= seq![' ']);
    let (start, size) = state::geometry(m)->0;
    let ops = render::bar_ops(m, column);
    let rows = render::bar_rows(column, start, size, m.height);
    let before = render::bar_rows(column, start, size, r);
    let through = render::bar_rows(column, start, size, r + 1);
    let row = render::bar_row(column, r, start, size);
    lemma_bar_rows_start(column, start, size, r + 1, m.height);
    let at = before.len() as int;
    assert(through == before + row);
    assert forall|j: int| 0 <= j < row.len() implies ops[at + j] == row[j] by {
        assert(ops[at + j] == rows.subrange(0, through.len() as int)[at + j]);
        assert(through[at + j] == row[j]);
    }
    assert(ops[at + 0] == row[0]);
    assert(ops[at + 1] == row[1]);
    if start <= r < start + size {
        assert(ops[at + 2] == row[2]);
        assert(ops[at + 3] == row[3]);
    }
    at
}

/// Without a text longer than the viewport there is no scrollbar.
pub proof fn law_no_scrollbar(m: StateModel, column: u16)
    requires
        m.height == 0 || m.total <= m.height,
    ensures
        render::bar_ops(m, column).len() == 0,
{
}

// ---------------------------------------------------------------------------
// Status line
// ---------------------------------------------------------------------------

/// `t` takes `width` columns: it is what is shown of `s` there, followed by spaces only.
pub open spec fn padded(s: Seq<char>, width: int, t: Seq<char>) -> bool {
    &&& strings::text_columns(t) == width
    &&& exists|kept: int|
        {
            &&& 0 <= kept <= t.len()
            &&& screen_laws::shown_of(s, width, #[trigger] t.subrange(0, kept))
            &&& forall|j: int| kept <= j < t.len() ==> #[trigger] t[j] == ' '
        }
}

/// The status line is drawn reversed in the given row, over exactly the given columns, and leaves
/// the terminal's own style behind.
pub proof fn law_status_drawn(m: StateModel, width: int, row: u16)
    requires
        0 <= width,
    ensures
        ({
            let ops = render::status_ops(m, width, row);
            &&& ops.len() == 6
            &&& ops[0] == (OpModel::MoveTo { column: 0, row })
            &&& ops[1] == OpModel::ClearLine
            &&& ops[2] == OpModel::SetAttribute(Attribute::Reverse)
            &&& ops[3] matches OpModel::Print(t) && padded(render::status_text(m), width, t)
            &&& ops[4] == OpModel::SetAttribute(Attribute::Reset)
            &&& ops[5] == OpModel::ResetColor
        }),
{
    let kept = screen_laws::law_padded_text(render::status_text(m), width);
    let t = screen::padded_text(render::status_text(m), width);
    assert(screen_laws::shown_of(render::status_text(m), width, t.subrange(0, kept)));
    assert(padded(render::status_text(m), width, t));
}

/// The number that a text of decimal digits denotes.
pub open spec fn value(s: Seq<char>) -> int
    decreases s.len(),
{
    if s.len() == 0 {
        0
    } else {
        value(s.drop_last()) * 10 + (s.last() as int - 48)
    }
}

/// Numbers are written in decimal digits without leading zeros.
pub proof fn law_number_text(n: int)
    requires
        0 <= n,
    ensures
        value(render::number_text(n)) == n,
        render::number_text(n).len() > 0,
        forall|j: int|
            0 <= j < render::number_text(n).len() ==> '0' <= #[trigger] render::number_text(n)[j]
                <= '9',
        n > 0 ==> render::number_text(n)[0] != '0',
    decreases n,
{
    let t = render::number_text(n);
    if n < 10 {
        assert(t.len() == 1);
        assert(t.drop_last() =~= Seq::<char>::empty());
        assert(value(Seq::<char>::empty()) == 0);
    } else {
        law_number_text(n / 10);
        let init = render::number_text(n / 10);
        assert(t.drop_last() =~= init);
        assert forall|j: int| 0 <= j < t.len() implies '0' <= #[trigger] t[j] <= '9' by {
            if j < init.len() {
                assert(t[j] == init[j]);
            }
        }
        assert(t[0] == init[0]);
    }
}

/// The share of the text that is scrolled, in percent, rounded down; 100 where there is nothing to
/// scroll. At the start of a longer text it is 0, at its end 100.
pub proof fn law_percentage(m: StateModel)
    requires
        state::state_ok(m),
        m.height > 0,
    ensures
        m.total <= m.height ==> render::percentage(m) == 100,
        m.total > m.height ==> {
            let p = render::percentage(m);
            &&& p * (m.total - m.height) <= m.scroll * 100 < (p + 1) * (m.total - m.height)
            &&& 0 <= p <= 100
            &&& m.scroll == 0 ==> p == 0
            &&& m.scroll == m.total - m.height ==> p == 100
        },
{
    if m.total > m.height {
        let p = render::percentage(m);
        let way = m.total - m.height;
        assert(p * way <= m.scroll * 100 && m.scroll * 100 < (p + 1) * way && 0 <= p <= 100)
            by (nonlinear_arith)
            requires
                p == (m.scroll * 100) / way,
                0 < way,
                0 <= m.scroll <= way,
        ;
        if m.scroll == 0 {
            assert(p == 0) by (nonlinear_arith)
                requires
                    p * way <= 0,
                    0 <= p,
                    0 < way,
            ;
        }
        if m.scroll == way {
            assert(p == 100) by (nonlinear_arith)
                requires
                    way * 100 < (p + 1) * way,
                    p <= 100,
                    0 < way,
            ;
        }
    }
}

/// The position names the first line that is shown, the last one, how many there are, and the share
/// in percent; an empty text is named as such.
pub proof fn law_position_text(m: StateModel)
    requires
        state::state_ok(m),
    ensures
        m.total == 0 ==> render::position_text(m) == seq![' ', '(', 'e', 'm', 'p', 't', 'y', ')'],
        m.total > 0 ==> {
            let first = m.scroll + 1;
            let last = if m.scroll + m.height < m.total {
                m.scroll + m.height
            } else {
                m.total
            };
            render::position_text(m) == seq![' '] + render::number_text(first) + seq!['-']
                + render::number_text(last) + seq!['/'] + render::number_text(m.total) + seq![
                ' ',
                '(',
            ] + render::number_text(render::percentage(m)) + seq!['%', ')']
        },
{
    reveal_strlit(" (empty)");
    reveal_strlit(" ");
    reveal_strlit("-");
    reveal_strlit("/");
    reveal_strlit(" (");
    reveal_strlit("%)");
    assert(" (empty)"@ =~= seq![' ', '(', 'e', 'm', 'p', 't', 'y', ')']);
    assert(" "@ =~= seq![' ']);
    assert("-"@ =~= seq!['-']);
    assert("/"@ =~= seq!['/']);
    assert(" ("@ =~= seq![' ', '(']);
    assert("%)"@ =~= seq!['%', ')']);
}

/// What the status line says: while a query is being typed the query behind a slash; else the
/// position, followed by the query, the number of the current match and how many there are while
/// matches are shown, or by the name of the file; and at the end the address of a hovered link.
pub proof fn law_status_text(m: StateModel)
    requires
        state::state_ok(m),
    ensures
        ({
            let s = render::mode_text(m);
            let position = render::position_text(m);
            match m.search {
                SearchModel::EnteringQuery => s == seq!['/'] + m.input,
                SearchModel::Active { query, matches, current_match } => s == position
                    + " -- Searching: '"@ + query + seq!['\'', ' ', '('] + render::number_text(
                    current_match + 1,
                ) + seq!['/'] + render::number_text(matches.len() as int)
                    + ") -- n/N: next/prev, Esc: clear"@,
                SearchModel::Normal => {
                    let name = match m.filename {
                        Some(name) => name,
                        None => seq!['l', 'e', 's', 's', 'i'],
                    };
                    s == position + seq![' '] + name
                        + " -- q: quit, j/k/↑/↓: scroll, d/u: half-page, /: search"@
                },
            }
        }),
        m.hovered is None ==> render::status_text(m) == render::mode_text(m),
        m.hovered matches Some(i) ==> render::status_text(m) == render::mode_text(m)
            + " -- Link: "@ + m.links[i as int].url,
{
    reveal_strlit("/");
    reveal_strlit(" ");
    reveal_strlit("' (");
    reveal_strlit("lessi");
    assert("/"@ =~= seq!['/']);
    assert(" "@ =~= seq![' ']);
    assert("' ("@ =~= seq!['\'', ' ', '(']);
    assert("lessi"@ =~= seq!['l', 'e', 's', 's', 'i']);
}

// ---------------------------------------------------------------------------
// Images
// ---------------------------------------------------------------------------

/// Where an image is drawn: at the row of its first line, or at the top with the rows above it left
/// out; there are rows for it down to the status line.
pub proof fn law_image_place(img: InlineImage, top: int, height: int)
    requires
        0 <= top,
        0 <= height,
        document::overlaps(img, top, height),
    ensures
        ({
            let row = render::image_row(img, top);
            let skipped = render::rows_skipped(img, top);
            let available = render::rows_available(img, top, height);
            &&& 0 <= row
            &&& 0 <= skipped
            &&& row == 0 || skipped == 0
            &&& img.line_idx + skipped == top + row
            &&& row + available == height
            &&& render::needs_clip(img, top, height) <==> img.line_idx < top || img.line_idx
                + img.height_rows > top + height
        }),
{
}

/// The data that is sent: all of an image that is wholly in the viewport; of a sixel image that is
/// partly there the rows that are; nothing of a kitty image that is partly there.
pub proof fn law_image_sent(img: InlineImage, top: int, height: int, cell_h: int)
    requires
        0 <= top,
        0 <= height,
        document::overlaps(img, top, height),
    ensures
        ({
            let sent = render::image_data(img, top, height, cell_h);
            let above = if img.line_idx < top {
                top - img.line_idx
            } else {
                0
            };
            let room = if img.line_idx < top {
                height
            } else {
                top + height - img.line_idx
            };
            if top <= img.line_idx && img.line_idx + img.height_rows <= top + height {
                sent == Some(img.data@)
            } else if img.protocol == ImageProtocol::Sixel {
                sent == sixel::clipped_sixel(img, above, room, cell_h)
            } else {
                sent is None
            }
        }),
{
}

/// What is drawn for an image: its data, sent once everything before is out, at its column and row.
pub proof fn law_image_drawn(img: InlineImage, top: int, height: int, cell_h: int)
    requires
        0 <= top,
        0 < height,
        document::overlaps(img, top, height),
    ensures
        ({
            let ops = render::image_ops(img, top, height, cell_h);
            match render::image_data(img, top, height, cell_h) {
                Some(data) => {
                    &&& ops.len() == 5
                    &&& ops[0] == (OpModel::MoveTo {
                        column: img.col as u16,
                        row: (if img.line_idx < top {
                            0
                        } else {
                            img.line_idx - top
                        }) as u16,
                    })
                    &&& ops[1] == OpModel::Flush
                    &&& ops[2] == OpModel::Raw(data)
                },
                None => forall|j: int| 0 <= j < ops.len() ==> !(#[trigger] ops[j] is Raw),
            }
        }),
{
}

/// Whether a line of the viewport is one of the lines of an image.
pub open spec fn on_screen(img: InlineImage, top: int, height: int) -> bool {
    exists|line: int|
        top <= line < top + height && #[trigger] holds_line(img, line)
}

/// Whether a line is one of the lines of an image.
pub open spec fn holds_line(img: InlineImage, line: int) -> bool {
    img.line_idx <= line < img.line_idx + img.height_rows
}

proof fn lemma_on_screen(img: InlineImage, top: int, height: int)
    requires
        0 < height,
        0 < img.height_rows,
    ensures
        document::overlaps(img, top, height) == on_screen(img, top, height),
{
    if document::overlaps(img, top, height) {
        let line = if img.line_idx < top {
            top
        } else {
            img.line_idx as int
        };
        assert(holds_line(img, line));
    }
}

/// The visible images are exactly those that have a line in the viewport, in their order: each of
/// them is in the list, nothing else is, and the list is as long as there are such images.
pub proof fn law_visible_images(images: Seq<InlineImage>, top: int, height: int)
    requires
        0 < height,
        forall|i: int| 0 <= i < images.len() ==> 0 < (#[trigger] images[i]).height_rows,
    ensures
        document::overlapping(images, top, height) == images.filter(
            |img: InlineImage| on_screen(img, top, height),
        ),
    decreases images.len(),
{
    let keep = |img: InlineImage| on_screen(img, top, height);
    reveal(Seq::filter);
    if images.len() > 0 {
        let init = images.drop_last();
        assert forall|i: int| 0 <= i < init.len() implies 0 < (#[trigger] init[i]).height_rows by {
            assert(init[i] == images[i]);
        }
        law_visible_images(init, top, height);
        assert(0 < images[images.len() - 1].height_rows);
        lemma_on_screen(images.last(), top, height);
    }
}

// ---------------------------------------------------------------------------
// Highlights
// ---------------------------------------------------------------------------

/// Whether a highlight stands for match `k`: it has its range, and is current if the match is.
pub open spec fn stands_for(h: Highlight, matches: Seq<SearchMatch>, current: int, k: int) -> bool {
    &&& h.start == matches[k].start
    &&& h.end == matches[k].end
    &&& h.current == (k == current)
}

/// Whether a highlight stands for one of the first `n` matches that are on the line.
pub open spec fn of_line(
    h: Highlight,
    matches: Seq<SearchMatch>,
    current: int,
    line: int,
    n: int,
) -> bool {
    exists|l: int|
        0 <= l < n && (#[trigger] matches[l]).line_idx == line && stands_for(
            h,
            matches,
            current,
            l,
        )
}

proof fn lemma_line_highlights(matches: Seq<SearchMatch>, current: int, line: int, n: int, k: int)
    requires
        0 <= n <= matches.len(),
    ensures
        0 <= k < n && matches[k].line_idx == line ==> exists|i: int|
            0 <= i < render::line_highlights(matches, current, line, n).len() && stands_for(
                #[trigger] render::line_highlights(matches, current, line, n)[i],
                matches,
                current,
                k,
            ),
        forall|i: int|
            0 <= i < render::line_highlights(matches, current, line, n).len() ==> of_line(
                #[trigger] render::line_highlights(matches, current, line, n)[i],
                matches,
                current,
                line,
                n,
            ),
    decreases n,
{
    let all = render::line_highlights(matches, current, line, n);
    if n > 0 {
        lemma_line_highlights(matches, current, line, n - 1, k);
        let before = render::line_highlights(matches, current, line, n - 1);
        if matches[n - 1].line_idx == line {
            assert(stands_for(all[all.len() - 1], matches, current, n - 1));
        }
        assert forall|i: int| 0 <= i < all.len() implies of_line(
            #[trigger] all[i],
            matches,
            current,
            line,
            n,
        ) by {
            if i < before.len() {
                assert(all[i] == before[i]);
                assert(of_line(before[i], matches, current, line, n - 1));
                let l = choose|l: int|
                    0 <= l < n - 1 && (#[trigger] matches[l]).line_idx == line && stands_for(
                        before[i],
                        matches,
                        current,
                        l,
                    );
                assert(matches[l].line_idx == line);
            } else {
                assert(matches[n - 1].line_idx == line);
            }
        }
        if 0 <= k < n - 1 && matches[k].line_idx == line {
            let i = choose|i: int|
                0 <= i < before.len() && stands_for(#[trigger] before[i], matches, current, k);
            assert(all[i] == before[i]);
        }
    }
}

/// Putting a highlight in keeps all others and the order.
proof fn lemma_inserted(hs: Seq<Highlight>, h: Highlight)
    requires
        forall|i: int, j: int|
            0 <= i < j < hs.len() ==> (#[trigger] hs[i]).start <= (#[trigger] hs[j]).start,
    ensures
        ({
            let r = render::inserted(hs, h);
            &&& r.to_multiset() == hs.to_multiset().insert(h)
            &&& r.len() == hs.len() + 1
            &&& forall|i: int, j: int|
                0 <= i < j < r.len() ==> (#[trigger] r[i]).start <= (#[trigger] r[j]).start
        }),
    decreases hs.len(),
{
    let r = render::inserted(hs, h);
    hs.to_multiset_ensures();
    if hs.len() > 0 && hs.last().start > h.start {
        let init = hs.drop_last();
        assert forall|i: int, j: int| 0 <= i < j < init.len() implies (#[trigger] init[i]).start
            <= (#[trigger] init[j]).start by {
            assert(init[i] == hs[i] && init[j] == hs[j]);
        }
        lemma_inserted(init, h);
        let rest = render::inserted(init, h);
        rest.to_multiset_ensures();
        init.to_multiset_ensures();
        assert(init.push(hs.last()) =~= hs);
        assert(rest.push(hs.last()).to_multiset() =~= hs.to_multiset().insert(h));
        assert forall|i: int, j: int| 0 <= i < j < r.len() implies (#[trigger] r[i]).start <= (
        #[trigger] r[j]).start by {
            if j == rest.len() {
                let x = rest[i];
                rest.to_multiset_ensures();
                assert(rest.contains(x));
                assert(rest.to_multiset().count(x) > 0);
                assert(x == h || init.to_multiset().count(x) > 0);
                if x != h {
                    assert(init.contains(x));
                    let k = choose|k: int| 0 <= k < init.len() && init[k] == x;
                    assert(hs[k].start <= hs[hs.len() - 1].start);
                }
            } else {
                assert(r[i] == rest[i] && r[j] == rest[j]);
            }
        }
    } else {
        if hs.len() > 0 {
            assert forall|i: int, j: int| 0 <= i < j < r.len() implies (#[trigger] r[i]).start <= (
            #[trigger] r[j]).start by {
                if j == hs.len() {
                    if i < hs.len() - 1 {
                        assert(hs[i].start <= hs[hs.len() - 1].start);
                    }
                }
            }
        }
    }
}

proof fn lemma_sorted(hs: Seq<Highlight>)
    ensures
        ({
            let r = render::sorted(hs);
            &&& r.to_multiset() == hs.to_multiset()
            &&& r.len() == hs.len()
            &&& forall|i: int, j: int|
                0 <= i < j < r.len() ==> (#[trigger] r[i]).start <= (#[trigger] r[j]).start
        }),
    decreases hs.len(),
{
    if hs.len() > 0 {
        lemma_sorted(hs.drop_last());
        lemma_inserted(render::sorted(hs.drop_last()), hs.last());
        hs.drop_last().to_multiset_ensures();
        assert(hs.drop_last().push(hs.last()) =~= hs);
    } else {
        assert(render::sorted(hs) =~= hs);
    }
}

/// The highlights of a line are its matches: each of them is highlighted, nothing else is, the
/// current one is marked, and they come in the order of their starts.
pub proof fn law_highlights_are_matches(search: SearchModel, line: int, k: int, i: int)
    requires
        search is Active,
        0 <= k < search->matches.len(),
        search->matches[k].line_idx == line,
    ensures
        ({
            let matches = search->matches;
            let current = search->current_match;
            let hs = render::highlights_of(search, line);
            &&& exists|j: int|
                0 <= j < hs.len() && stands_for(#[trigger] hs[j], matches, current, k)
            &&& 0 <= i < hs.len() ==> of_line(
                hs[i],
                matches,
                current,
                line,
                matches.len() as int,
            )
            &&& forall|a: int, b: int|
                0 <= a < b < hs.len() ==> (#[trigger] hs[a]).start <= (#[trigger] hs[b]).start
        }),
{
    let matches = search->matches;
    let current = search->current_match;
    let n = matches.len() as int;
    let found = render::line_highlights(matches, current, line, n);
    let hs = render::highlights_of(search, line);
    lemma_line_highlights(matches, current, line, n, k);
    lemma_sorted(found);
    found.to_multiset_ensures();
    hs.to_multiset_ensures();
    let f = choose|f: int| 0 <= f < found.len() && stands_for(#[trigger] found[f], matches, current, k);
    assert(found.contains(found[f]));
    assert(hs.to_multiset().count(found[f]) > 0);
    assert(hs.contains(found[f]));
    if 0 <= i < hs.len() {
        assert(hs.contains(hs[i]));
        assert(found.to_multiset().count(hs[i]) > 0);
        assert(found.contains(hs[i]));
        let g = choose|g: int| 0 <= g < found.len() && found[g] == hs[i];
        assert(of_line(found[g], matches, current, line, n));
    }
}

/// Without a search nothing is highlighted.
pub proof fn law_no_search_no_highlights(search: SearchModel, line: int)
    requires
        !(search is Active),
    ensures
        render::highlights_of(search, line).len() == 0,
{
}

// ---------------------------------------------------------------------------
// Rows below
// ---------------------------------------------------------------------------

/// Rows that a taller terminal had are cleared, each of them, and only they.
pub proof fn law_leftover_rows(from: int, to: int, r: int)
    requires
        from <= r < to,
    ensures
        ({
            let ops = render::leftover_ops(from, to);
            &&& ops.len() == 2 * (to - from)
            &&& ops[2 * (r - from)] == (OpModel::MoveTo { column: 0, row: r as u16 })
            &&& ops[2 * (r - from) + 1] == OpModel::ClearLine
        }),
    decreases to - from,
{
    if r < to - 1 {
        law_leftover_rows(from, to - 1, r);
    } else if from < to - 1 {
        law_leftover_rows(from, to - 1, from);
    } else {
        assert(render::leftover_ops(from, from).len() == 0);
    }
}

// ---------------------------------------------------------------------------
// The parts of the screen
// ---------------------------------------------------------------------------

/// `part` stands somewhere in `ops`.
pub open spec fn holds_part(ops: Seq<OpModel>, part: Seq<OpModel>) -> bool {
    exists|p: int|
        0 <= p && p + part.len() <= ops.len() && #[trigger] ops.subrange(p, p + part.len()) == part
}

proof fn lemma_holds_part(before: Seq<OpModel>, part: Seq<OpModel>, after: Seq<OpModel>)
    ensures
        holds_part(before + part + after, part),
{
    let ops = before + part + after;
    let p = before.len() as int;
    assert(ops.subrange(p, p + part.len()) =~= part);
}

/// The screen holds the scrollbar in the last column, the status line in the row below the text over
/// the whole width, and cleared rows where a taller terminal had some. It ends with the images: what
/// was drawn before is out by then.
pub proof fn law_screen_parts(
    m: StateModel,
    lines: Seq<LineModel>,
    images: Seq<InlineImage>,
    width: int,
    previous_height: int,
)
    requires
        1 <= width <= u16::MAX,
        0 <= m.height <= u16::MAX,
    ensures
        ({
            let ops = render::screen_ops(m, lines, images, width, previous_height);
            &&& holds_part(ops, render::bar_ops(m, (width - 1) as u16))
            &&& holds_part(ops, render::status_ops(m, width, m.height as u16))
            &&& holds_part(
                ops,
                render::leftover_ops(m.last_terminal_height, previous_height),
            )
            &&& exists|before: Seq<OpModel>|
                ops == #[trigger] (before + seq![OpModel::Flush]) + render::images_ops(
                    document::overlapping(images, m.scroll, m.height),
                    m.scroll,
                    m.height,
                    m.cell_h,
                ) + seq![OpModel::Flush]
        }),
{
    let last = state::minus(width, 1);
    let rows = render::rows_ops(m, lines, last, m.height);
    let bar = render::bar_ops(m, last as u16);
    let status = render::status_ops(m, width, m.height as u16);
    let left = render::leftover_ops(m.last_terminal_height, previous_height);
    let flush = seq![OpModel::Flush];
    let pics = render::images_ops(
        document::overlapping(images, m.scroll, m.height),
        m.scroll,
        m.height,
        m.cell_h,
    );
    let ops = render::screen_ops(m, lines, images, width, previous_height);
    assert(ops =~= rows + bar + (status + left + flush + pics + flush));
    lemma_holds_part(rows, bar, status + left + flush + pics + flush);
    assert(ops =~= (rows + bar) + status + (left + flush + pics + flush));
    lemma_holds_part(rows + bar, status, left + flush + pics + flush);
    assert(ops =~= (rows + bar + status) + left + (flush + pics + flush));
    lemma_holds_part(rows + bar + status, left, flush + pics + flush);
    assert(ops == ((rows + bar + status + left) + flush) + pics + flush);
}

/// Images are drawn one after the other: each of them, and nothing between them.
pub proof fn law_images_drawn(
    a: Seq<InlineImage>,
    b: Seq<InlineImage>,
    img: InlineImage,
    top: int,
    height: int,
    cell_h: int,
)
    ensures
        render::images_ops(a + b, top, height, cell_h) == render::images_ops(
            a,
            top,
            height,
            cell_h,
        ) + render::images_ops(b, top, height, cell_h),
        render::images_ops(seq![img], top, height, cell_h) == render::image_ops(
            img,
            top,
            height,
            cell_h,
        ),
    decreases b.len(),
{
    let one = seq![img];
    let none = Seq::<OpModel>::empty();
    assert(one.drop_last() =~= Seq::<InlineImage>::empty());
    assert(render::images_ops(Seq::<InlineImage>::empty(), top, height, cell_h) =~= none);
    assert(none + render::image_ops(img, top, height, cell_h) =~= render::image_ops(
        img,
        top,
        height,
        cell_h,
    ));
    if b.len() == 0 {
        assert(a + b =~= a);
        assert(b =~= Seq::<InlineImage>::empty());
        assert(render::images_ops(a, top, height, cell_h) + none =~= render::images_ops(
            a,
            top,
            height,
            cell_h,
        ));
    } else {
        let init = b.drop_last();
        law_images_drawn(a, init, img, top, height, cell_h);
        assert((a + b).drop_last() =~= a + init);
        assert((a + b).last() == b.last());
        let x = render::images_ops(a, top, height, cell_h);
        let y = render::images_ops(init, top, height, cell_h);
        let z = render::image_ops(b.last(), top, height, cell_h);
        assert((x + y) + z =~= x + (y + z));
    }
}

/// A row of the viewport is drawn as the line that is scrolled there, under the number of that line,
/// with the focused and the hovered link of the state.
pub proof fn law_row_drawn_as_line(m: StateModel, lines: Seq<LineModel>, row: int, width: int)
    requires
        0 < width,
        0 <= m.scroll,
        0 <= row,
        m.scroll + row < lines.len(),
        render::row_drawable(m, lines, row, width),
    ensures
        ({
            let line = m.scroll + row;
            let ops = render::row_ops(m, lines, row, width);
            let ctx = LinkContext {
                focused: match m.focused {
                    Some(i) => Some(m.links[i as int]),
                    None => None,
                },
                hovered: match m.hovered {
                    Some(i) => Some(m.links[i as int]),
                    None => None,
                },
            };
            let hl = render::highlights_of(m.search, line);
            &&& chunks::chunks_of(lines[line], hl) is Some
            &&& ops.subrange(2, ops.len() as int) == screen::line_ops(
                chunks::chunks_of(lines[line], hl)->0,
                line,
                width,
                ctx,
            )
        }),
{
    let line = m.scroll + row;
    let ops = render::row_ops(m, lines, row, width);
    let inner = screen::line_ops(
        render::shown_chunks(m, lines, line)->0,
        line,
        width,
        render::link_context(m),
    );
    lemma_fresh_row(row);
    assert(ops.subrange(2, ops.len() as int) =~= inner);
}

/// Exactly the bytes of a line that a match on this very line covers look highlighted.
pub proof fn law_matches_highlighted(
    m: StateModel,
    lines: Seq<LineModel>,
    line: int,
    s: int,
    x: int,
)
    requires
        m.search is Active,
        0 <= line < lines.len(),
        lines[line].partitioned(),
        0 <= s < lines[line].segments.len(),
        lines[line].segments[s].start <= x < lines[line].segments[s].end,
        forall|k: int|
            0 <= k < m.search->matches.len() ==> (#[trigger] m.search->matches[k]).start
                <= m.search->matches[k].end,
        render::shown_chunks(m, lines, line) is Some,
    ensures
        ({
            let seg = lines[line].segments[s];
            let matches = m.search->matches;
            let look = chunk_laws::look_at(render::shown_chunks(m, lines, line)->0, x);
            &&& (forall|k: int|
                0 <= k < matches.len() && (#[trigger] matches[k]).line_idx == line ==> !(
                matches[k].start <= x < matches[k].end)) ==> look == Some(
                (seg.style, seg.hyperlink),
            )
            &&& (exists|k: int|
                0 <= k < matches.len() && (#[trigger] matches[k]).line_idx == line
                    && matches[k].start <= x < matches[k].end) ==> look == Some(
                (chunks::match_style(seg.style, true), seg.hyperlink),
            ) || look == Some((chunks::match_style(seg.style, false), seg.hyperlink))
        }),
{
    let matches = m.search->matches;
    let current = m.search->current_match;
    let n = matches.len() as int;
    let found = render::line_highlights(matches, current, line, n);
    let hs = render::highlights_of(m.search, line);
    lemma_sorted(found);
    lemma_line_highlights(matches, current, line, n, 0);
    assert forall|i: int| 0 <= i < hs.len() implies of_line(
        #[trigger] hs[i],
        matches,
        current,
        line,
        n,
    ) by {
        found.to_multiset_ensures();
        hs.to_multiset_ensures();
        assert(hs.contains(hs[i]));
        assert(found.to_multiset().count(hs[i]) > 0);
        assert(found.contains(hs[i]));
        let g = choose|g: int| 0 <= g < found.len() && found[g] == hs[i];
        assert(of_line(found[g], matches, current, line, n));
    }
    assert(chunk_laws::by_start(hs)) by {
        assert forall|i: int| 0 <= i < hs.len() implies (#[trigger] hs[i]).start <= hs[i].end by {
            assert(of_line(hs[i], matches, current, line, n));
            let l = choose|l: int|
                0 <= l < n && (#[trigger] matches[l]).line_idx == line && stands_for(
                    hs[i],
                    matches,
                    current,
                    l,
                );
            assert(matches[l].start <= matches[l].end);
        }
    }
    chunk_laws::law_highlighted_bytes(lines[line], hs, s, x);
    if exists|k: int|
        0 <= k < n && (#[trigger] matches[k]).line_idx == line && matches[k].start <= x
            < matches[k].end {
        let k = choose|k: int|
            0 <= k < n && (#[trigger] matches[k]).line_idx == line && matches[k].start <= x
                < matches[k].end;
        law_highlights_are_matches(m.search, line, k, 0);
        let j = choose|j: int|
            0 <= j < hs.len() && stands_for(#[trigger] hs[j], matches, current, k);
        assert(chunk_laws::covers(hs[j], x));
        chunk_laws::lemma_some_covers(hs, 0, j, x);
    } else {
        assert forall|i: int| 0 <= i < hs.len() implies !chunk_laws::covers(
            #[trigger] hs[i],
            x,
        ) by {
            assert(of_line(hs[i], matches, current, line, n));
            let l = choose|l: int|
                0 <= l < n && (#[trigger] matches[l]).line_idx == line && stands_for(
                    hs[i],
                    matches,
                    current,
                    l,
                );
            assert(matches[l].line_idx == line);
        }
    }
}

} // verus!
