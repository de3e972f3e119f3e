//! Drawing the whole screen: lines, scrollbar, status line and images.
use vstd::prelude::*;
use vstd::string::*;
use crate::ansi;
use crate::ansi::{LineModel, ParsedLine};
use crate::chunks;
use crate::chunks::Highlight;
use crate::document;
use crate::document::visible_images;
use crate::image::{ImageProtocol, InlineImage};
use crate::navigation;
use crate::screen;
use crate::screen::{
    push_op, push_ops, truncate_with_padding, try_render_line, DrawOp, LinkContext, OpModel,
};
use crate::search::SearchMatch;
use crate::sixel;
use crate::sixel::clip_sixel;
use crate::state;
use crate::state::{PagerState, SearchMode, SearchModel, StateModel};
use crate::style::Attribute;
use crate::text;

verus! {

// ---------------------------------------------------------------------------
// Highlights
// ---------------------------------------------------------------------------

/// The highlights of a line among the first `n` matches, in the order of the matches.
pub open spec fn line_highlights(
    matches: Seq<SearchMatch>,
    current: int,
    line_idx: int,
    n: int,
) -> Seq<Highlight>
    decreases n,
{
    if n <= 0 || n > matches.len() {
        seq![]
    } else {
        let before = line_highlights(matches, current, line_idx, n - 1);
        let m = matches[n - 1];
        if m.line_idx == line_idx {
            before.push(Highlight { start: m.start, end: m.end, current: n - 1 == current })
        } else {
            before
        }
    }
}

/// `hs` with `h` put in behind all that start no later.
pub open spec fn inserted(hs: Seq<Highlight>, h: Highlight) -> Seq<Highlight>
    decreases hs.len(),
{
    if hs.len() == 0 || hs.last().start <= h.start {
        hs.push(h)
    } else {
        inserted(hs.drop_last(), h).push(hs.last())
    }
}

/// Highlights sorted by their start; those that start together stay in their order.
pub open spec fn sorted(hs: Seq<Highlight>) -> Seq<Highlight>
    decreases hs.len(),
{
    if hs.len() == 0 {
        seq![]
    } else {
        inserted(sorted(hs.drop_last()), hs.last())
    }
}

/// The highlights of a line.
pub open spec fn highlights_of(m: SearchModel, line_idx: int) -> Seq<Highlight> {
    match m {
        SearchModel::Active { query, matches, current_match } => sorted(
            line_highlights(matches, current_match, line_idx, matches.len() as int),
        ),
        _ => seq![],
    }
}

/// Puts a highlight in behind all that start no later.
fn insert_highlight(hs: &mut Vec<Highlight>, h: Highlight)
    ensures
        final(hs)@ == inserted(old(hs)@, h),
{
    let ghost all = old(hs)@;
    let mut k: usize = hs.len();
    let ghost mut tail: Seq<Highlight> = seq![];
    assert(all.subrange(0, k as int) =~= all);
    assert(inserted(all, h) + tail =~= inserted(all, h));
    while k > 0 && hs[k - 1].start > h.start
        invariant
            k <= all.len(),
            hs@ == all,
            tail == all.subrange(k as int, all.len() as int),
            inserted(all, h) == inserted(all.subrange(0, k as int), h) + tail,
        decreases k,
    {
        let ghost head = all.subrange(0, k as int);
        proof {
            assert(head.last() == all[k - 1]);
            assert(head.drop_last() =~= all.subrange(0, k - 1));
            let next = all.subrange(k - 1, all.len() as int);
            assert(inserted(head, h) == inserted(head.drop_last(), h).push(head.last()));
            assert(inserted(head.drop_last(), h).push(head.last()) + tail =~= inserted(
                head.drop_last(),
                h,
            ) + next) by {
                assert(next =~= seq![all[k - 1]] + tail);
            }
            tail = next;
        }
        k -= 1;
    }
    proof {
        let head = all.subrange(0, k as int);
        assert(inserted(head, h) == head.push(h)) by {
            if k > 0 {
                assert(head.last() == all[k - 1]);
            }
        }
        assert(head.push(h) + tail =~= all.insert(k as int, h));
    }
    hs.insert(k, h);
}

/// The highlights of a line, sorted by their start.
pub fn collect_highlights(mode: &SearchMode, line_idx: usize) -> (r: Vec<Highlight>)
    ensures
        r@ == highlights_of(mode@, line_idx as int),
{
    let mut out: Vec<Highlight> = Vec::new();
    match mode {
        SearchMode::Active { query, matches, current_match } => {
            let ghost all = matches@;
            let ghost current = *current_match as int;
            let mut i: usize = 0;
            while i < matches.len()
                invariant
                    i <= matches@.len(),
                    all == matches@,
                    current == *current_match,
                    out@ == sorted(line_highlights(all, current, line_idx as int, i as int)),
                decreases matches.len() - i,
            {
                let m = matches[i];
                if m.line_idx == line_idx {
                    let h = Highlight { start: m.start, end: m.end, current: i == *current_match };
                    insert_highlight(&mut out, h);
                    let ghost before = line_highlights(all, current, line_idx as int, i as int);
                    assert(before.push(h).drop_last() =~= before);
                }
                i += 1;
            }
        },
        _ => {},
    }
    out
}

/// Matches in ascending order are highlighted in the same order.
pub proof fn law_sorted_stays(hs: Seq<Highlight>)
    requires
        forall|i: int, j: int|
            0 <= i < j < hs.len() ==> (#[trigger] hs[i]).start <= (#[trigger] hs[j]).start,
    ensures
        sorted(hs) == hs,
    decreases hs.len(),
{
    if hs.len() > 0 {
        let init = hs.drop_last();
        law_sorted_stays(init);
        assert(init.push(hs.last()) =~= hs);
        if init.len() > 0 {
            assert(init.last() == hs[hs.len() - 2]);
        }
    } else {
        assert(hs =~= seq![]);
    }
}

// ---------------------------------------------------------------------------
// Text lines
// ---------------------------------------------------------------------------

/// The focused and the hovered link.
pub open spec fn link_context(m: StateModel) -> LinkContext {
    LinkContext {
        focused: match m.focused {
            Some(i) => Some(m.links[i as int]),
            None => None,
        },
        hovered: match m.hovered {
            Some(i) => Some(m.links[i as int]),
            None => None,
        },
    }
}

/// Going to the start of a row and clearing it.
pub open spec fn fresh_row(row: int) -> Seq<OpModel> {
    seq![OpModel::MoveTo { column: 0, row: row as u16 }, OpModel::ClearLine]
}

/// The chunks of a line of the document, with the matches of the current search highlighted.
pub open spec fn shown_chunks(m: StateModel, lines: Seq<LineModel>, i: int) -> Option<
    Seq<chunks::RenderChunkModel>,
> {
    chunks::chunks_of(lines[i], highlights_of(m.search, i))
}

/// Drawing a row of the viewport: the line that is scrolled there, if there is one.
pub open spec fn row_ops(m: StateModel, lines: Seq<LineModel>, row: int, width: int) -> Seq<
    OpModel,
> {
    let i = m.scroll + row;
    if i < lines.len() && width > 0 {
        fresh_row(row) + screen::line_ops(shown_chunks(m, lines, i)->0, i, width, link_context(m))
    } else {
        fresh_row(row)
    }
}

/// Drawing the first `n` rows of the viewport.
pub open spec fn rows_ops(m: StateModel, lines: Seq<LineModel>, width: int, n: int) -> Seq<OpModel>
    decreases n,
{
    if n <= 0 {
        seq![]
    } else {
        rows_ops(m, lines, width, n - 1) + row_ops(m, lines, n - 1, width)
    }
}

/// Whether a row of the viewport can be drawn: no highlight starts or ends inside a character.
pub open spec fn row_drawable(m: StateModel, lines: Seq<LineModel>, row: int, width: int) -> bool {
    m.scroll + row < lines.len() && width > 0 ==> shown_chunks(
        m,
        lines,
        m.scroll + row,
    ) is Some
}

pub open spec fn rows_drawable(m: StateModel, lines: Seq<LineModel>, width: int) -> bool {
    forall|row: int| 0 <= row < m.height ==> #[trigger] row_drawable(m, lines, row, width)
}

fn push_fresh_row(out: &mut Vec<DrawOp>, row: usize)
    requires
        row <= state::MAX_ROWS,
    ensures
        screen::op_models(final(out)@) == screen::op_models(old(out)@) + fresh_row(row as int),
{
    push_op(out, DrawOp::MoveTo { column: 0, row: row as u16 });
    push_op(out, DrawOp::ClearLine);
    assert(screen::op_models(out@) =~= screen::op_models(old(out)@) + fresh_row(row as int));
}

/// Draws the text; `None` where a highlight starts or ends inside a character.
fn try_render_rows(state: &PagerState, content: &[ParsedLine], width: usize) -> (r: Option<
    Vec<DrawOp>,
>)
    requires
        state.wf(),
        forall|i: int| 0 <= i < content@.len() ==> (#[trigger] content@[i])@.partitioned(),
    ensures
        match r {
            Some(ops) => rows_drawable(state@, ansi::line_models(content@), width as int)
                && screen::op_models(ops@) == rows_ops(
                state@,
                ansi::line_models(content@),
                width as int,
                state@.height,
            ),
            None => !rows_drawable(state@, ansi::line_models(content@), width as int),
        },
{
    let ghost lines = ansi::line_models(content@);
    let ghost m = state@;
    let mut out: Vec<DrawOp> = Vec::new();
    let mut row: usize = 0;
    assert(screen::op_models(out@) =~= seq![]);
    while row < state.viewport_height
        invariant
            state.wf(),
            m == state@,
            lines == ansi::line_models(content@),
            forall|i: int| 0 <= i < content@.len() ==> (#[trigger] content@[i])@.partitioned(),
            row <= state.viewport_height,
            forall|r: int| 0 <= r < row ==> #[trigger] row_drawable(m, lines, r, width as int),
            screen::op_models(out@) == rows_ops(m, lines, width as int, row as int),
        decreases state.viewport_height - row,
    {
        let i: usize = state.scroll_offset + row;
        let ghost before = screen::op_models(out@);
        push_fresh_row(&mut out, row);
        let ghost fresh = screen::op_models(out@);
        if i < content.len() && width > 0 {
            assert(lines[i as int] == content@[i as int]@);
            let highlights = collect_highlights(&state.search_mode, i);
            let focused = state.focused_link();
            let hovered = state.hovered_link();
            assert(screen::opt_link_info(focused) == link_context(m).focused);
            assert(screen::opt_link_info(hovered) == link_context(m).hovered);
            match try_render_line(&content[i], i, &highlights, width, focused, hovered) {
                Some(ops) => {
                    push_ops(&mut out, ops);
                    assert(row_drawable(m, lines, row as int, width as int));
                },
                None => {
                    assert(!row_drawable(m, lines, row as int, width as int));
                    return None;
                },
            }
        } else {
            assert(row_drawable(m, lines, row as int, width as int));
        }
        assert(screen::op_models(out@) =~= before + row_ops(m, lines, row as int, width as int));
        row += 1;
    }
    Some(out)
}

// ---------------------------------------------------------------------------
// Scrollbar
// ---------------------------------------------------------------------------

/// Drawing one row of the scrollbar: reversed where the knob is.
pub open spec fn bar_row(column: u16, row: int, start: int, size: int) -> Seq<OpModel> {
    let place = seq![OpModel::MoveTo { column, row: row as u16 }];
    if start <= row < start + size {
        place + seq![
            OpModel::SetAttribute(Attribute::Reverse),
            OpModel::Print(" "@),
            OpModel::SetAttribute(Attribute::NoReverse),
        ]
    } else {
        place + seq![OpModel::Print(" "@)]
    }
}

/// Drawing the first `n` rows of the scrollbar.
pub open spec fn bar_rows(column: u16, start: int, size: int, n: int) -> Seq<OpModel>
    decreases n,
{
    if n <= 0 {
        seq![]
    } else {
        bar_rows(column, start, size, n - 1) + bar_row(column, n - 1, start, size)
    }
}

/// Drawing the scrollbar, where there is one, and the blank below it.
pub open spec fn bar_ops(m: StateModel, column: u16) -> Seq<OpModel> {
    match state::geometry(m) {
        Some((start, size)) => bar_rows(column, start, size, m.height) + seq![
            OpModel::MoveTo { column, row: m.height as u16 },
            OpModel::Print(" "@),
        ],
        None => seq![],
    }
}

/// Draws the scrollbar.
pub fn draw_scrollbar(state: &PagerState, column: u16) -> (r: Vec<DrawOp>)
    requires
        state.wf(),
    ensures
        screen::op_models(r@) == bar_ops(state@, column),
{
    let mut out: Vec<DrawOp> = Vec::new();
    assert(screen::op_models(out@) =~= seq![]);
    let g = match state.scrollbar_geometry() {
        Some(g) => g,
        None => return out,
    };
    let (start, size): (usize, usize) = (g.knob_start, g.knob_size);
    let mut row: usize = 0;
    while row < state.viewport_height
        invariant
            state.wf(),
            row <= state.viewport_height,
            start + size <= state.viewport_height,
            screen::op_models(out@) == bar_rows(column, start as int, size as int, row as int),
        decreases state.viewport_height - row,
    {
        let ghost before = screen::op_models(out@);
        push_op(&mut out, DrawOp::MoveTo { column, row: row as u16 });
        if row >= start && row < start + size {
            push_op(&mut out, DrawOp::SetAttribute(Attribute::Reverse));
            push_op(&mut out, DrawOp::Print(String::from_str(" ")));
            push_op(&mut out, DrawOp::SetAttribute(Attribute::NoReverse));
        } else {
            push_op(&mut out, DrawOp::Print(String::from_str(" ")));
        }
        assert(screen::op_models(out@) =~= before + bar_row(
            column,
            row as int,
            start as int,
            size as int,
        ));
        row += 1;
    }
    let ghost before = screen::op_models(out@);
    push_op(&mut out, DrawOp::MoveTo { column, row: state.viewport_height as u16 });
    push_op(&mut out, DrawOp::Print(String::from_str(" ")));
    assert(screen::op_models(out@) =~= bar_ops(state@, column));
    out
}

// ---------------------------------------------------------------------------
// Status line
// ---------------------------------------------------------------------------

/// A number in decimal digits.
pub open spec fn number_text(n: int) -> Seq<char> {
    let digits = text::decimal(n);
    Seq::new(digits.len(), |k: int| digits[k] as char)
}

/// How far the text is scrolled, in percent.
pub open spec fn percentage(m: StateModel) -> int {
    if state::max_scroll(m) == 0 {
        100
    } else {
        (m.scroll * 100) / state::max_scroll(m)
    }
}

/// Which lines are shown, of how many, and how far that is.
pub open spec fn position_text(m: StateModel) -> Seq<char> {
    if m.total == 0 {
        " (empty)"@
    } else {
        " "@ + number_text(m.scroll + 1) + "-"@ + number_text(
            state::smaller(m.scroll + m.height, m.total),
        ) + "/"@ + number_text(m.total) + " ("@ + number_text(percentage(m)) + "%)"@
    }
}

/// The status text: the query that is being typed, or the position with the current search or the
/// file name.
pub open spec fn mode_text(m: StateModel) -> Seq<char> {
    match m.search {
        SearchModel::EnteringQuery => "/"@ + m.input,
        SearchModel::Active { query, matches, current_match } => position_text(m)
            + " -- Searching: '"@ + query + "' ("@ + number_text(current_match + 1) + "/"@
            + number_text(matches.len() as int) + ") -- n/N: next/prev, Esc: clear"@,
        SearchModel::Normal => position_text(m) + " "@ + (match m.filename {
            Some(name) => name,
            None => "lessi"@,
        }) + " -- q: quit, j/k/↑/↓: scroll, d/u: half-page, /: search"@,
    }
}

/// The status text, with the target of the hovered link.
pub open spec fn status_text(m: StateModel) -> Seq<char> {
    match navigation::hovered_url(m) {
        Some(url) => mode_text(m) + " -- Link: "@ + url,
        None => mode_text(m),
    }
}

/// Drawing the status line: reversed, over the whole width.
pub open spec fn status_ops(m: StateModel, width: int, row: u16) -> Seq<OpModel> {
    seq![
        OpModel::MoveTo { column: 0, row },
        OpModel::ClearLine,
        OpModel::SetAttribute(Attribute::Reverse),
        OpModel::Print(screen::padded_text(status_text(m), width)),
        OpModel::SetAttribute(Attribute::Reset),
        OpModel::ResetColor,
    ]
}

/// Appends a number in decimal digits.
fn push_number(out: &mut String, n: usize)
    ensures
        final(out)@ == old(out)@ + number_text(n as int),
{
    let digits = text::decimal_bytes(n);
    let ghost start = old(out)@;
    let mut i: usize = 0;
    assert(out@ =~= start + number_text(n as int).subrange(0, 0));
    while i < digits.len()
        invariant
            i <= digits@.len(),
            digits@ == text::decimal(n as int),
            out@ == start + number_text(n as int).subrange(0, i as int),
        decreases digits.len() - i,
    {
        out.push(digits[i] as char);
        assert(out@ =~= start + number_text(n as int).subrange(0, i + 1));
        i += 1;
    }
    assert(number_text(n as int).subrange(0, i as int) =~= number_text(n as int));
}

/// Which lines are shown, of how many, and how far that is.
pub fn format_position(state: &PagerState) -> (r: String)
    requires
        state.wf(),
    ensures
        r@ == position_text(state@),
{
    if state.total_lines == 0 {
        return String::from_str(" (empty)");
    }
    let max = state.max_scroll();
    let ghost m = state@;
    let percent: usize = if max == 0 {
        100
    } else {
        state.scroll_offset * 100 / max
    };
    let bottom: usize = if state.scroll_offset + state.viewport_height <= state.total_lines {
        state.scroll_offset + state.viewport_height
    } else {
        state.total_lines
    };
    let mut out = String::from_str(" ");
    push_number(&mut out, state.scroll_offset + 1);
    out.append("-");
    push_number(&mut out, bottom);
    out.append("/");
    push_number(&mut out, state.total_lines);
    out.append(" (");
    push_number(&mut out, percent);
    out.append("%)");
    out
}

/// The status text.
pub fn format_status(state: &PagerState) -> (r: String)
    requires
        state.wf(),
    ensures
        r@ == status_text(state@),
{
    let mut out = match &state.search_mode {
        SearchMode::EnteringQuery => {
            let mut s = String::from_str("/");
            s.append(state.search_input.as_str());
            s
        },
        SearchMode::Active { query, matches, current_match } => {
            let n: usize = matches.len();
            let mut s = format_position(state);
            s.append(" -- Searching: '");
            s.append(query.as_str());
            s.append("' (");
            push_number(&mut s, *current_match + 1);
            s.append("/");
            push_number(&mut s, n);
            s.append(") -- n/N: next/prev, Esc: clear");
            s
        },
        SearchMode::Normal => {
            let mut s = format_position(state);
            s.append(" ");
            match &state.filename {
                Some(name) => s.append(name.as_str()),
                None => s.append("lessi"),
            }
            s.append(" -- q: quit, j/k/↑/↓: scroll, d/u: half-page, /: search");
            s
        },
    };
    if let Some(target) = state.hovered_link_target() {
        out.append(" -- Link: ");
        out.append(target.as_str());
    }
    out
}

/// Draws the status line.
pub fn draw_status_line(state: &PagerState, width: u16, row: u16) -> (r: Vec<DrawOp>)
    requires
        state.wf(),
    ensures
        screen::op_models(r@) == status_ops(state@, width as int, row),
{
    let status = format_status(state);
    let display = truncate_with_padding(status.as_str(), width as usize);
    let mut out: Vec<DrawOp> = Vec::new();
    assert(screen::op_models(out@) =~= seq![]);
    push_op(&mut out, DrawOp::MoveTo { column: 0, row });
    push_op(&mut out, DrawOp::ClearLine);
    push_op(&mut out, DrawOp::SetAttribute(Attribute::Reverse));
    push_op(&mut out, DrawOp::Print(display));
    push_op(&mut out, DrawOp::SetAttribute(Attribute::Reset));
    push_op(&mut out, DrawOp::ResetColor);
    assert(screen::op_models(out@) =~= status_ops(state@, width as int, row));
    out
}

// ---------------------------------------------------------------------------
// Images
// ---------------------------------------------------------------------------

/// How many rows of an image are scrolled out at the top.
pub open spec fn rows_skipped(img: InlineImage, top: int) -> int {
    state::minus(top, img.line_idx as int)
}

/// The row of the viewport where the visible part of an image starts.
pub open spec fn image_row(img: InlineImage, top: int) -> int {
    state::minus(img.line_idx as int, top)
}

/// How many rows there are for an image down to the status line.
pub open spec fn rows_available(img: InlineImage, top: int, height: int) -> int {
    state::minus(height, image_row(img, top))
}

/// Whether an image is only partly visible.
pub open spec fn needs_clip(img: InlineImage, top: int, height: int) -> bool {
    rows_skipped(img, top) > 0 || img.height_rows > rows_available(img, top, height)
}

/// The data that is sent for an image: all of it if it is fully visible, else the visible part of
/// a sixel image; partly visible kitty images are left out.
pub open spec fn image_data(img: InlineImage, top: int, height: int, cell_h: int) -> Option<
    Seq<u8>,
> {
    if !needs_clip(img, top, height) {
        Some(img.data@)
    } else if img.protocol == ImageProtocol::Sixel {
        sixel::clipped_sixel(
            img,
            rows_skipped(img, top),
            rows_available(img, top, height),
            cell_h,
        )
    } else {
        None
    }
}

/// Drawing an image; where there are no rows for it nothing is done.
pub open spec fn image_ops(img: InlineImage, top: int, height: int, cell_h: int) -> Seq<OpModel> {
    if rows_available(img, top, height) == 0 {
        seq![]
    } else {
        (match image_data(img, top, height, cell_h) {
            Some(data) => seq![
                OpModel::MoveTo { column: img.col as u16, row: image_row(img, top) as u16 },
                OpModel::Flush,
                OpModel::Raw(data),
            ],
            None => seq![],
        }) + screen::reset_ops()
    }
}

/// Drawing images.
pub open spec fn images_ops(images: Seq<InlineImage>, top: int, height: int, cell_h: int) -> Seq<
    OpModel,
>
    decreases images.len(),
{
    if images.len() == 0 {
        seq![]
    } else {
        images_ops(images.drop_last(), top, height, cell_h) + image_ops(
            images.last(),
            top,
            height,
            cell_h,
        )
    }
}

/// Whether an image can be drawn: what is computed from its size and place are machine numbers.
pub open spec fn image_drawable(img: InlineImage, top: int, height: int, cell_h: int) -> bool {
    &&& img.line_idx + img.height_rows <= usize::MAX
    &&& document::overlaps(img, top, height) && rows_available(img, top, height) > 0
        && needs_clip(img, top, height) && img.protocol == ImageProtocol::Sixel ==> img.wf() && sixel::clip_fits(
        img.height_rows as int,
        rows_skipped(img, top),
        rows_available(img, top, height),
        cell_h,
    )
}

pub open spec fn images_drawable(images: Seq<InlineImage>, top: int, height: int, cell_h: int) -> bool {
    forall|i: int|
        0 <= i < images.len() ==> image_drawable(#[trigger] images[i], top, height, cell_h)
}

proof fn lemma_overlapping(images: Seq<InlineImage>, top: int, height: int, cell_h: int, i: int)
    requires
        0 <= i < document::overlapping(images, top, height).len(),
        images_drawable(images, top, height, cell_h),
    ensures
        image_drawable(document::overlapping(images, top, height)[i], top, height, cell_h),
        document::overlaps(document::overlapping(images, top, height)[i], top, height),
    decreases images.len(),
{
    let init = images.drop_last();
    assert(images_drawable(init, top, height, cell_h)) by {
        assert forall|k: int| 0 <= k < init.len() implies image_drawable(
            #[trigger] init[k],
            top,
            height,
            cell_h,
        ) by {
            assert(init[k] == images[k]);
        }
    }
    assert(image_drawable(images[images.len() - 1], top, height, cell_h));
    if i < document::overlapping(init, top, height).len() {
        lemma_overlapping(init, top, height, cell_h, i);
    }
}

/// Draws an image.
fn render_image(img: &InlineImage, scroll_offset: usize, viewport_height: usize, cell_h: usize) -> (r:
    Vec<DrawOp>)
    requires
        image_drawable(*img, scroll_offset as int, viewport_height as int, cell_h as int),
        document::overlaps(*img, scroll_offset as int, viewport_height as int),
        viewport_height <= state::MAX_ROWS,
    ensures
        screen::op_models(r@) == image_ops(
            *img,
            scroll_offset as int,
            viewport_height as int,
            cell_h as int,
        ),
{
    let skip: usize = if scroll_offset >= img.line_idx {
        scroll_offset - img.line_idx
    } else {
        0
    };
    let row: usize = if img.line_idx >= scroll_offset {
        img.line_idx - scroll_offset
    } else {
        0
    };
    let available: usize = viewport_height - row;
    let mut out: Vec<DrawOp> = Vec::new();
    assert(screen::op_models(out@) =~= seq![]);
    if available == 0 {
        return out;
    }
    let clip = skip > 0 || img.height_rows > available;
    let data: Option<Vec<u8>> = if !clip {
        let copy = text::slice_vec(img.data.as_slice(), 0, img.data.len());
        assert(copy@ =~= img.data@);
        Some(copy)
    } else {
        match img.protocol {
            ImageProtocol::Sixel => clip_sixel(img, skip, available, cell_h),
            ImageProtocol::Kitty => None,
        }
    };
    let ghost want = image_data(
        *img,
        scroll_offset as int,
        viewport_height as int,
        cell_h as int,
    );
    if let Some(d) = data {
        push_op(
            &mut out,
            DrawOp::MoveTo { column: #[verifier::truncate] (img.col as u16), row: row as u16 },
        );
        push_op(&mut out, DrawOp::Flush);
        push_op(&mut out, DrawOp::Raw(d));
    }
    push_op(&mut out, DrawOp::SetAttribute(Attribute::Reset));
    push_op(&mut out, DrawOp::ResetColor);
    assert(screen::op_models(out@) =~= image_ops(
        *img,
        scroll_offset as int,
        viewport_height as int,
        cell_h as int,
    ));
    out
}

/// Draws the images that are visible in the viewport.
pub fn render_images(
    images: &[InlineImage],
    scroll_offset: usize,
    viewport_height: usize,
    cell_h: usize,
) -> (r: Vec<DrawOp>)
    requires
        scroll_offset + viewport_height <= usize::MAX,
        viewport_height <= state::MAX_ROWS,
        images_drawable(
            images@,
            scroll_offset as int,
            viewport_height as int,
            cell_h as int,
        ),
    ensures
        screen::op_models(r@) == images_ops(
            document::overlapping(images@, scroll_offset as int, viewport_height as int),
            scroll_offset as int,
            viewport_height as int,
            cell_h as int,
        ),
{
    let ghost (top, height, ch) = (scroll_offset as int, viewport_height as int, cell_h as int);
    assert forall|i: int| 0 <= i < images@.len() implies (#[trigger] images@[i]).line_idx
        + images@[i].height_rows <= usize::MAX by {
        assert(image_drawable(images@[i], top, height, ch));
    }
    let visible = visible_images(images, scroll_offset, viewport_height);
    let ghost all = document::overlapping(images@, top, height);
    let mut out: Vec<DrawOp> = Vec::new();
    assert(screen::op_models(out@) =~= seq![]);
    assert(all.subrange(0, 0).len() == 0);
    let mut i: usize = 0;
    while i < visible.len()
        invariant
            top == scroll_offset,
            height == viewport_height,
            ch == cell_h,
            viewport_height <= state::MAX_ROWS,
            i <= visible@.len(),
            images_drawable(images@, top, height, ch),
            all == document::overlapping(images@, top, height),
            visible@.len() == all.len(),
            forall|j: int| 0 <= j < all.len() ==> *(#[trigger] visible@[j]) == all[j],
            screen::op_models(out@) == images_ops(all.subrange(0, i as int), top, height, ch),
        decreases visible.len() - i,
    {
        let img = visible[i];
        proof {
            assert(*visible@[i as int] == all[i as int]);
            lemma_overlapping(images@, top, height, ch, i as int);
            assert(all.subrange(0, i + 1).drop_last() =~= all.subrange(0, i as int));
            assert(all.subrange(0, i + 1).last() == *img);
        }
        let ops = render_image(img, scroll_offset, viewport_height, cell_h);
        push_ops(&mut out, ops);
        i += 1;
    }
    assert(all.subrange(0, i as int) =~= all);
    out
}

/// Whether an image can be drawn.
fn can_draw_image(img: &InlineImage, scroll_offset: usize, viewport_height: usize, cell_h: usize) -> (r:
    bool)
    requires
        scroll_offset + viewport_height <= usize::MAX,
    ensures
        r == image_drawable(*img, scroll_offset as int, viewport_height as int, cell_h as int),
{
    if usize::MAX - img.line_idx < img.height_rows {
        return false;
    }
    if img.line_idx >= scroll_offset + viewport_height || img.line_idx + img.height_rows
        <= scroll_offset || img.protocol != ImageProtocol::Sixel {
        return true;
    }
    let skip: usize = if scroll_offset >= img.line_idx {
        scroll_offset - img.line_idx
    } else {
        0
    };
    let row: usize = if img.line_idx >= scroll_offset {
        img.line_idx - scroll_offset
    } else {
        0
    };
    let available: usize = viewport_height - row;
    if available == 0 || (skip == 0 && img.height_rows <= available) {
        return true;
    }
    if img.sixel_data_start > img.data.len() {
        return false;
    }
    let mut i: usize = 0;
    while i < img.sixel_row_offsets.len()
        invariant
            i <= img.sixel_row_offsets@.len(),
            img.sixel_data_start <= img.data@.len(),
            forall|j: int|
                0 <= j < i ==> #[trigger] img.picture().sixel_row_offsets[j] < img.data@.len(),
        ensures
            img.wf() == (i == img.sixel_row_offsets@.len()),
            i <= img.sixel_row_offsets@.len(),
        decreases img.sixel_row_offsets.len() - i,
    {
        if img.sixel_row_offsets[i] >= img.data.len() {
            assert(img.picture().sixel_row_offsets[i as int] >= img.data@.len());
            assert(!img.wf());
            break;
        }
        i += 1;
    }
    if i < img.sixel_row_offsets.len() {
        return false;
    }
    let visible: usize = if available <= img.height_rows - skip {
        available
    } else {
        img.height_rows - skip
    };
    skip.checked_mul(cell_h).is_some() && visible.checked_mul(cell_h).is_some()
}

/// Whether all images can be drawn.
fn can_draw_images(
    images: &[InlineImage],
    scroll_offset: usize,
    viewport_height: usize,
    cell_h: usize,
) -> (r: bool)
    requires
        scroll_offset + viewport_height <= usize::MAX,
    ensures
        r == images_drawable(
            images@,
            scroll_offset as int,
            viewport_height as int,
            cell_h as int,
        ),
{
    let mut i: usize = 0;
    while i < images.len()
        invariant
            scroll_offset + viewport_height <= usize::MAX,
            i <= images@.len(),
            forall|j: int|
                0 <= j < i ==> image_drawable(
                    #[trigger] images@[j],
                    scroll_offset as int,
                    viewport_height as int,
                    cell_h as int,
                ),
        decreases images.len() - i,
    {
        if !can_draw_image(&images[i], scroll_offset, viewport_height, cell_h) {
            assert(!image_drawable(
                images@[i as int],
                scroll_offset as int,
                viewport_height as int,
                cell_h as int,
            ));
            return false;
        }
        i += 1;
    }
    true
}

// ---------------------------------------------------------------------------
// The screen
// ---------------------------------------------------------------------------

/// Clearing the rows from `from` up to (not including) `to`.
pub open spec fn leftover_ops(from: int, to: int) -> Seq<OpModel>
    decreases to - from,
{
    if from >= to {
        seq![]
    } else {
        leftover_ops(from, to - 1) + fresh_row(to - 1)
    }
}

/// The state that a screen of the given size is drawn from.
pub open spec fn fitted(m: StateModel, total: int, width: int, height: int) -> StateModel {
    state::with_height(
        StateModel {
            total,
            last_terminal_width: width,
            last_terminal_height: height,
            ..m
        },
        state::minus(height, 1),
    )
}

/// Drawing the screen: the text, the scrollbar in the last column, the status line in the last
/// row, clearing rows that a taller terminal had, and at last the images.
pub open spec fn screen_ops(
    m: StateModel,
    lines: Seq<LineModel>,
    images: Seq<InlineImage>,
    width: int,
    previous_height: int,
) -> Seq<OpModel> {
    let last = state::minus(width, 1);
    rows_ops(m, lines, last, m.height) + bar_ops(m, last as u16) + status_ops(
        m,
        width,
        m.height as u16,
    ) + leftover_ops(m.last_terminal_height, previous_height) + seq![OpModel::Flush] + images_ops(
        document::overlapping(images, m.scroll, m.height),
        m.scroll,
        m.height,
        m.cell_h,
    ) + seq![OpModel::Flush]
}

/// Whether the screen can be drawn.
pub open spec fn drawable(
    m: StateModel,
    lines: Seq<LineModel>,
    images: Seq<InlineImage>,
    width: int,
) -> bool {
    &&& rows_drawable(m, lines, state::minus(width, 1))
    &&& images_drawable(images, m.scroll, m.height, m.cell_h)
}

fn push_leftover(out: &mut Vec<DrawOp>, from: usize, to: usize)
    requires
        to <= state::MAX_ROWS,
    ensures
        screen::op_models(final(out)@) == screen::op_models(old(out)@) + leftover_ops(
            from as int,
            to as int,
        ),
{
    let ghost start = screen::op_models(old(out)@);
    if from >= to {
        assert(start + leftover_ops(from as int, to as int) =~= start);
        return;
    }
    let mut row: usize = from;
    assert(screen::op_models(out@) =~= start + leftover_ops(from as int, from as int));
    while row < to
        invariant
            from <= row <= to,
            to <= state::MAX_ROWS,
            screen::op_models(out@) == start + leftover_ops(from as int, row as int),
        decreases to - row,
    {
        push_fresh_row(out, row);
        assert(screen::op_models(out@) =~= start + leftover_ops(from as int, row + 1));
        row += 1;
    }
}

fn push_flush(out: &mut Vec<DrawOp>)
    ensures
        screen::op_models(final(out)@) == screen::op_models(old(out)@) + seq![OpModel::Flush],
{
    push_op(out, DrawOp::Flush);
    assert(screen::op_models(out@) =~= screen::op_models(old(out)@) + seq![OpModel::Flush]);
}

/// Draws the screen. On a terminal without rows nothing happens. `None` where a highlight starts
/// or ends inside a character, or a number computed for an image is too large for the machine.
pub fn try_render_pager(
    content: &[ParsedLine],
    images: &[InlineImage],
    state: &mut PagerState,
    terminal_width: u16,
    terminal_height: u16,
) -> (r: Option<Vec<DrawOp>>)
    requires
        old(state).wf(),
        state::limits(content@.len() as int, state::minus(terminal_height as int, 1)),
        forall|i: int| 0 <= i < content@.len() ==> (#[trigger] content@[i])@.partitioned(),
    ensures
        final(state).wf(),
        ({
            let lines = ansi::line_models(content@);
            let m = fitted(
                old(state)@,
                content@.len() as int,
                terminal_width as int,
                terminal_height as int,
            );
            if terminal_height == 0 {
                &&& final(state)@ == old(state)@
                &&& r matches Some(ops) && screen::op_models(ops@) == Seq::<OpModel>::empty()
            } else {
                &&& final(state)@ == m
                &&& match r {
                    Some(ops) => drawable(m, lines, images@, terminal_width as int)
                        && screen::op_models(ops@) == screen_ops(
                        m,
                        lines,
                        images@,
                        terminal_width as int,
                        old(state)@.last_terminal_height,
                    ),
                    None => !drawable(m, lines, images@, terminal_width as int),
                }
            }
        }),
{
    if terminal_height == 0 {
        let none: Vec<DrawOp> = Vec::new();
        assert(screen::op_models(none@) =~= seq![]);
        return Some(none);
    }
    let previous: usize = state.last_terminal_height;
    state.fit_terminal(content.len(), terminal_width as usize, terminal_height as usize);
    let last: u16 = if terminal_width >= 1 {
        terminal_width - 1
    } else {
        0
    };
    let out = match try_render_rows(state, content, last as usize) {
        Some(ops) => ops,
        None => return None,
    };
    if !can_draw_images(images, state.scroll_offset, state.viewport_height, state.cell_h) {
        return None;
    }
    Some(finish_screen(out, images, state, terminal_width, last, previous))
}

/// Draws what comes after the text.
fn finish_screen(
    rows: Vec<DrawOp>,
    images: &[InlineImage],
    state: &PagerState,
    terminal_width: u16,
    last: u16,
    previous: usize,
) -> (r: Vec<DrawOp>)
    requires
        state.wf(),
        previous <= state::MAX_ROWS,
        images_drawable(images@, state@.scroll, state@.height, state@.cell_h),
    ensures
        screen::op_models(r@) == screen::op_models(rows@) + bar_ops(state@, last) + status_ops(
            state@,
            terminal_width as int,
            state@.height as u16,
        ) + leftover_ops(state@.last_terminal_height, previous as int) + seq![OpModel::Flush]
            + images_ops(
            document::overlapping(images@, state@.scroll, state@.height),
            state@.scroll,
            state@.height,
            state@.cell_h,
        ) + seq![OpModel::Flush],
{
    let mut out = rows;
    let bar = draw_scrollbar(state, last);
    push_ops(&mut out, bar);
    let status = draw_status_line(state, terminal_width, state.viewport_height as u16);
    push_ops(&mut out, status);
    push_leftover(&mut out, state.last_terminal_height, previous);
    push_flush(&mut out);
    let pictures = render_images(
        images,
        state.scroll_offset,
        state.viewport_height,
        state.cell_h,
    );
    push_ops(&mut out, pictures);
    push_flush(&mut out);
    out
}

/// Draws the screen. On a terminal without rows nothing happens.
pub fn render_pager(
    content: &[ParsedLine],
    images: &[InlineImage],
    state: &mut PagerState,
    terminal_width: u16,
    terminal_height: u16,
) -> (r: Vec<DrawOp>)
    requires
        old(state).wf(),
        state::limits(content@.len() as int, state::minus(terminal_height as int, 1)),
        forall|i: int| 0 <= i < content@.len() ==> (#[trigger] content@[i])@.partitioned(),
        terminal_height > 0 ==> drawable(
            fitted(
                old(state)@,
                content@.len() as int,
                terminal_width as int,
                terminal_height as int,
            ),
            ansi::line_models(content@),
            images@,
            terminal_width as int,
        ),
    ensures
        final(state).wf(),
        ({
            let m = fitted(
                old(state)@,
                content@.len() as int,
                terminal_width as int,
                terminal_height as int,
            );
            if terminal_height == 0 {
                &&& final(state)@ == old(state)@
                &&& screen::op_models(r@) == Seq::<OpModel>::empty()
            } else {
                &&& final(state)@ == m
                &&& screen::op_models(r@) == screen_ops(
                    m,
                    ansi::line_models(content@),
                    images@,
                    terminal_width as int,
                    old(state)@.last_terminal_height,
                )
            }
        }),
{
    try_render_pager(content, images, state, terminal_width, terminal_height).unwrap()
}

// ---------------------------------------------------------------------------
// Laws
// ---------------------------------------------------------------------------

/// A visible image is drawn within the viewport: it starts above the status line, and the rows
/// that are kept of it end above the status line.
pub proof fn law_images_above_status(img: InlineImage, top: int, height: int)
    requires
        document::overlaps(img, top, height),
        0 <= top,
        0 < height,
        img.height_rows > 0,
    ensures
        0 <= image_row(img, top) < height,
        rows_available(img, top, height) > 0,
        ({
            let kept = sixel::visible_rows(
                img.height_rows as int,
                rows_skipped(img, top),
                rows_available(img, top, height),
            );
            0 < kept && image_row(img, top) + kept <= height
        }),
{
}

/// A partly visible kitty image is not drawn; a fully visible image is sent as it is.
pub proof fn law_image_data(img: InlineImage, top: int, height: int, cell_h: int)
    ensures
        !needs_clip(img, top, height) ==> image_data(img, top, height, cell_h) == Some(img.data@),
        needs_clip(img, top, height) && img.protocol == ImageProtocol::Kitty ==> image_data(
            img,
            top,
            height,
            cell_h,
        ) is None,
{
}

} // verus!
