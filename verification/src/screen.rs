//! Drawing operations, and the pieces of the screen that are made of text: lines, scrollbar and
//! status line.
use vstd::prelude::*;
use vstd::string::*;
use crate::ansi;
use crate::ansi::{HyperlinkModel, ParsedHyperlink, ParsedLine};
use crate::chunks;
use crate::chunks::{Highlight, RenderChunk, RenderChunkModel};
use crate::links;
use crate::links::{LinkInfo, LinkModel};
use crate::scan;
use crate::scan::push_spaces;
use crate::strings;
use crate::strings::{chars_string, columns_of, to_chars};
use crate::style;
use crate::style::{AnsiStyle, Attribute, Color};

verus! {

// ---------------------------------------------------------------------------
// Operations
// ---------------------------------------------------------------------------

/// One thing to do to the terminal.
pub enum DrawOp {
    MoveTo { column: u16, row: u16 },
    ClearLine,
    SetAttribute(Attribute),
    ResetColor,
    SetForeground(Color),
    SetBackground(Color),
    Print(String),
    Raw(Vec<u8>),
    Flush,
}

#[verifier::ext_equal]
pub enum OpModel {
    MoveTo { column: u16, row: u16 },
    ClearLine,
    SetAttribute(Attribute),
    ResetColor,
    SetForeground(Color),
    SetBackground(Color),
    Print(Seq<char>),
    Raw(Seq<u8>),
    Flush,
}

impl View for DrawOp {
    type V = OpModel;

    open spec fn view(&self) -> OpModel {
        match self {
            DrawOp::MoveTo { column, row } => OpModel::MoveTo { column: *column, row: *row },
            DrawOp::ClearLine => OpModel::ClearLine,
            DrawOp::SetAttribute(a) => OpModel::SetAttribute(*a),
            DrawOp::ResetColor => OpModel::ResetColor,
            DrawOp::SetForeground(c) => OpModel::SetForeground(*c),
            DrawOp::SetBackground(c) => OpModel::SetBackground(*c),
            DrawOp::Print(s) => OpModel::Print(s@),
            DrawOp::Raw(d) => OpModel::Raw(d@),
            DrawOp::Flush => OpModel::Flush,
        }
    }
}

pub open spec fn op_models(v: Seq<DrawOp>) -> Seq<OpModel> {
    Seq::new(v.len(), |i: int| v[i]@)
}

/// Appends one operation.
pub fn push_op(out: &mut Vec<DrawOp>, op: DrawOp)
    ensures
        op_models(final(out)@) == op_models(old(out)@).push(op@),
{
    out.push(op);
    assert(op_models(out@) =~= op_models(old(out)@).push(op@));
}

/// Appends operations.
pub fn push_ops(out: &mut Vec<DrawOp>, ops: Vec<DrawOp>)
    ensures
        op_models(final(out)@) == op_models(old(out)@) + op_models(ops@),
{
    let ghost given = op_models(ops@);
    let ghost start = op_models(old(out)@);
    assert(op_models(out@) =~= start + given.subrange(0, 0));
    for op in it: ops
        invariant
            given == op_models(it.seq()),
            op_models(out@) == start + given.subrange(0, it.index()),
    {
        let ghost k = it.index();
        push_op(out, op);
        assert(op_models(out@) =~= start + given.subrange(0, k + 1));
    }
    assert(given.subrange(0, given.len() as int) =~= given);
}

// ---------------------------------------------------------------------------
// Styles
// ---------------------------------------------------------------------------

/// A colour, or the terminal's own.
pub open spec fn color_or_reset(c: Option<Color>) -> Color {
    match c {
        Some(c) => c,
        None => Color::Reset,
    }
}

/// Selecting a style: everything is reset first.
pub open spec fn style_ops(s: AnsiStyle) -> Seq<OpModel> {
    seq![
        OpModel::SetAttribute(Attribute::Reset),
        OpModel::ResetColor,
        OpModel::SetForeground(color_or_reset(s.fg)),
        OpModel::SetBackground(color_or_reset(s.bg)),
    ] + attribute_ops(style::attributes_set(s.attributes))
}

/// Setting attributes.
pub open spec fn attribute_ops(attrs: Seq<Attribute>) -> Seq<OpModel> {
    Seq::new(attrs.len(), |i: int| OpModel::SetAttribute(attrs[i]))
}

/// Going back to the terminal's own style.
pub open spec fn reset_ops() -> Seq<OpModel> {
    seq![OpModel::SetAttribute(Attribute::Reset), OpModel::ResetColor]
}

fn push_reset(out: &mut Vec<DrawOp>)
    ensures
        op_models(final(out)@) == op_models(old(out)@) + reset_ops(),
{
    push_op(out, DrawOp::SetAttribute(Attribute::Reset));
    push_op(out, DrawOp::ResetColor);
    assert(op_models(out@) =~= op_models(old(out)@) + reset_ops());
}

impl AnsiStyle {
    /// Selects the style.
    pub fn apply(&self, out: &mut Vec<DrawOp>)
        ensures
            op_models(final(out)@) == op_models(old(out)@) + style_ops(*self),
    {
        let ghost start = op_models(old(out)@);
        push_reset(out);
        push_op(
            out,
            DrawOp::SetForeground(
                match self.fg {
                    Some(c) => c,
                    None => Color::Reset,
                },
            ),
        );
        push_op(
            out,
            DrawOp::SetBackground(
                match self.bg {
                    Some(c) => c,
                    None => Color::Reset,
                },
            ),
        );
        let attrs = self.attributes.attribute_list();
        let ghost four = op_models(out@);
        push_attributes(out, &attrs);
        assert(four + attribute_ops(attrs@) =~= start + style_ops(*self));
    }
}

fn push_attributes(out: &mut Vec<DrawOp>, attrs: &Vec<Attribute>)
    ensures
        op_models(final(out)@) == op_models(old(out)@) + attribute_ops(attrs@),
{
    let ghost start = op_models(old(out)@);
    let ghost want = attribute_ops(attrs@);
    let mut i: usize = 0;
    assert(op_models(out@) =~= start + want.subrange(0, 0));
    while i < attrs.len()
        invariant
            i <= attrs@.len(),
            want == attribute_ops(attrs@),
            op_models(out@) == start + want.subrange(0, i as int),
        decreases attrs.len() - i,
    {
        push_op(out, DrawOp::SetAttribute(attrs[i]));
        assert(op_models(out@) =~= start + want.subrange(0, i + 1));
        i += 1;
    }
    assert(want.subrange(0, i as int) =~= want);
}

// ---------------------------------------------------------------------------
// Clipping to columns
// ---------------------------------------------------------------------------

/// How many characters of `s` from the `i`-th on fit into `max` columns of which `used` are taken:
/// up to the first that does not fit.
pub open spec fn fitting_end(s: Seq<char>, max: int, i: int, used: int) -> int
    decreases s.len() - i,
{
    if i < 0 || i >= s.len() || used + strings::columns(s[i]) > max {
        i
    } else {
        fitting_end(s, max, i + 1, used + strings::columns(s[i]))
    }
}

/// The number of characters of `s` that fit into `max` columns.
pub open spec fn fitting(s: Seq<char>, max: int) -> int {
    fitting_end(s, max, 0, 0)
}

/// How a text is clipped: the part that fits, its columns, and whether it is the whole text. Into
/// no columns nothing fits.
pub open spec fn clipped_text(s: Seq<char>, max: int) -> (Seq<char>, int, bool) {
    let k = fitting(s, max);
    if max == 0 {
        (seq![], 0, false)
    } else if s.len() == 0 {
        (seq![], 0, true)
    } else if k == 0 {
        (seq![], 0, false)
    } else {
        (s.subrange(0, k), strings::text_columns(s.subrange(0, k)), k == s.len())
    }
}

/// Finds how many characters fit, and their columns.
fn fit_columns(s: &Vec<char>, max: usize) -> (r: (usize, usize))
    ensures
        r.0 == fitting(s@, max as int),
        r.0 <= s@.len(),
        r.1 == strings::text_columns(s@.subrange(0, r.0 as int)),
        r.1 <= max,
{
    let n: usize = s.len();
    let mut i: usize = 0;
    let mut used: usize = 0;
    assert(s@.subrange(0, 0) =~= seq![]);
    while i < n
        invariant
            n == s@.len(),
            i <= n,
            used <= max,
            used == strings::text_columns(s@.subrange(0, i as int)),
            fitting(s@, max as int) == fitting_end(s@, max as int, i as int, used as int),
        decreases n - i,
    {
        let w = columns_of(s[i]);
        if w > max - used {
            return (i, used);
        }
        proof {
            let next = s@.subrange(0, i + 1);
            assert(next.drop_last() =~= s@.subrange(0, i as int));
            assert(next.last() == s@[i as int]);
        }
        used += w;
        i += 1;
    }
    (i, used)
}

/// Clips a text to a number of columns: the part that fits, its columns, and whether it is the
/// whole text.
pub fn clip_to_width(text: &str, max_width: usize) -> (r: (String, usize, bool))
    ensures
        (r.0@, r.1 as int, r.2) == clipped_text(text@, max_width as int),
        r.1 <= max_width,
        r.0@.len() <= text@.len(),
{
    if max_width == 0 {
        return (String::new(), 0, false);
    }
    let s = to_chars(text);
    if s.len() == 0 {
        return (String::new(), 0, true);
    }
    let (end, width) = fit_columns(&s, max_width);
    if end == 0 {
        return (String::new(), 0, false);
    }
    (chars_string(s.as_slice(), 0, end), width, end == s.len())
}

/// A text clipped or padded with spaces to exactly `width` columns.
pub open spec fn padded_text(s: Seq<char>, width: int) -> Seq<char> {
    if width == 0 {
        seq![]
    } else {
        let kept = s.subrange(0, fitting(s, width));
        kept + scan::spaces(width - strings::text_columns(kept))
    }
}

/// Clips a text to a number of columns, or pads it with spaces.
pub fn truncate_with_padding(text: &str, width: usize) -> (r: String)
    ensures
        r@ == padded_text(text@, width as int),
{
    if width == 0 {
        return String::new();
    }
    let s = to_chars(text);
    let (end, used) = fit_columns(&s, width);
    let mut out = chars_string(s.as_slice(), 0, end);
    push_spaces(&mut out, width - used);
    out
}

// ---------------------------------------------------------------------------
// Lines
// ---------------------------------------------------------------------------

/// The escape sequence that opens a hyperlink.
pub open spec fn link_opening(h: HyperlinkModel) -> Seq<char> {
    "\x1b]8;"@ + ansi::params_text(h) + ";"@ + h.url + "\x07"@
}

/// Whether a link overlaps a range of characters.
pub open spec fn touched(
    link: Option<LinkModel>,
    line_idx: int,
    start: int,
    end: int,
) -> bool {
    match link {
        Some(l) => links::link_overlaps(l, line_idx, start, end),
        None => false,
    }
}

/// The links that are drawn in a special way.
#[verifier::ext_equal]
pub struct LinkContext {
    pub focused: Option<LinkModel>,
    pub hovered: Option<LinkModel>,
}

/// The style of a chunk whose visible part covers the given characters of its line.
pub open spec fn chunk_style(
    c: RenderChunkModel,
    ctx: LinkContext,
    line_idx: int,
    start: int,
    end: int,
) -> AnsiStyle {
    if c.hyperlink is Some {
        let focused = touched(ctx.focused, line_idx, start, end);
        let hovered = touched(ctx.hovered, line_idx, start, end);
        style::link_styled(c.style, focused, hovered && !focused)
    } else {
        c.style
    }
}

/// Printing the visible part of a chunk, inside of its hyperlink if it has one.
pub open spec fn print_ops(visible: Seq<char>, link: Option<HyperlinkModel>) -> Seq<OpModel> {
    match link {
        Some(h) => seq![
            OpModel::Print(link_opening(h)),
            OpModel::Print(visible),
            OpModel::Print("\x1b]8;;\x07"@),
        ],
        None => seq![OpModel::Print(visible)],
    }
}

/// Drawing the chunks of a line from the `i`-th on, with `remaining` columns left, the first
/// character being the `at`-th of the line.
pub open spec fn chunk_ops(
    all: Seq<RenderChunkModel>,
    i: int,
    remaining: int,
    at: int,
    line_idx: int,
    ctx: LinkContext,
) -> Seq<OpModel>
    decreases all.len() - i,
{
    if i < 0 || i >= all.len() || remaining == 0 {
        seq![]
    } else {
        let c = all[i];
        let (visible, used, complete) = clipped_text(c.text, remaining);
        if visible.len() == 0 && used == 0 && !complete {
            seq![]
        } else {
            let end = at + visible.len();
            let here = style_ops(chunk_style(c, ctx, line_idx, at, end)) + print_ops(
                visible,
                c.hyperlink,
            );
            if used >= remaining || !complete {
                here
            } else {
                here + chunk_ops(all, i + 1, remaining - used, end, line_idx, ctx)
            }
        }
    }
}

/// Drawing a line into `width` columns; with no columns nothing is drawn.
pub open spec fn line_ops(
    all: Seq<RenderChunkModel>,
    line_idx: int,
    width: int,
    ctx: LinkContext,
) -> Seq<OpModel> {
    if width == 0 {
        seq![]
    } else {
        chunk_ops(all, 0, width, 0, line_idx, ctx) + reset_ops()
    }
}

pub open spec fn opt_link_info(l: Option<&LinkInfo>) -> Option<LinkModel> {
    match l {
        Some(i) => Some(i@),
        None => None,
    }
}

/// The escape sequence that opens a hyperlink.
fn link_opening_text(h: &ParsedHyperlink) -> (r: String)
    ensures
        r@ == link_opening(h@),
{
    let mut out = String::from_str("\x1b]8;");
    out.append(h.params_fragment().as_str());
    out.append(";");
    out.append(h.url.as_str());
    out.append("\x07");
    out
}

/// Whether a link overlaps a range of characters.
fn is_touched(link: Option<&LinkInfo>, line_idx: usize, start: usize, end: usize) -> (r: bool)
    ensures
        r == touched(opt_link_info(link), line_idx as int, start as int, end as int),
{
    match link {
        Some(l) => l.intersects_chars(line_idx, start, end),
        None => false,
    }
}

/// Draws the visible part of a chunk.
fn render_chunk(
    out: &mut Vec<DrawOp>,
    chunk: &RenderChunk,
    visible: String,
    line_idx: usize,
    start: usize,
    end: usize,
    focused: Option<&LinkInfo>,
    hovered: Option<&LinkInfo>,
)
    ensures
        op_models(final(out)@) == op_models(old(out)@) + (style_ops(
            chunk_style(
                chunk@,
                LinkContext { focused: opt_link_info(focused), hovered: opt_link_info(hovered) },
                line_idx as int,
                start as int,
                end as int,
            ),
        ) + print_ops(visible@, chunk@.hyperlink)),
{
    let ghost before = op_models(old(out)@);
    let mut style = chunk.style;
    if chunk.hyperlink.is_some() {
        let is_focused = is_touched(focused, line_idx, start, end);
        let is_hovered = is_touched(hovered, line_idx, start, end);
        style = style.with_link_style(is_focused, is_hovered && !is_focused);
    }
    style.apply(out);
    let ghost styled = op_models(out@);
    let ghost shown = visible@;
    match &chunk.hyperlink {
        Some(h) => {
            push_op(out, DrawOp::Print(link_opening_text(h)));
            push_op(out, DrawOp::Print(visible));
            push_op(out, DrawOp::Print(String::from_str("\x1b]8;;\x07")));
        },
        None => {
            push_op(out, DrawOp::Print(visible));
        },
    }
    assert(op_models(out@) =~= styled + print_ops(shown, chunk@.hyperlink));
    assert(styled + print_ops(shown, chunk@.hyperlink) =~= before + (style_ops(style) + print_ops(
        shown,
        chunk@.hyperlink,
    )));
}

/// The number of characters in the chunks before the `i`-th.
spec fn chars_before(all: Seq<RenderChunkModel>, i: int) -> int
    decreases i,
{
    if i <= 0 || i > all.len() {
        0
    } else {
        chars_before(all, i - 1) + all[i - 1].text.len()
    }
}

proof fn lemma_chars_before(all: Seq<RenderChunkModel>, i: int)
    requires
        0 <= i <= all.len(),
    ensures
        chars_before(all, i) + chunks::chunks_text(all.subrange(i, all.len() as int)).len()
            == chunks::chunks_text(all).len(),
        0 <= chars_before(all, i),
    decreases i,
{
    if i == 0 {
        assert(all.subrange(0, all.len() as int) =~= all);
    } else {
        lemma_chars_before(all, i - 1);
        let t = all.subrange(i - 1, all.len() as int);
        assert(t.subrange(1, t.len() as int) =~= all.subrange(i, all.len() as int));
        assert(t[0] == all[i - 1]);
    }
}

/// Draws a line with its chunks given.
fn render_chunks(
    chunks_given: &Vec<RenderChunk>,
    line_idx: usize,
    width: usize,
    focused: Option<&LinkInfo>,
    hovered: Option<&LinkInfo>,
) -> (r: Vec<DrawOp>)
    requires
        chunks::chunks_text(chunks::render_chunk_models(chunks_given@)).len() <= usize::MAX,
    ensures
        op_models(r@) == line_ops(
            chunks::render_chunk_models(chunks_given@),
            line_idx as int,
            width as int,
            LinkContext { focused: opt_link_info(focused), hovered: opt_link_info(hovered) },
        ),
{
    let mut out: Vec<DrawOp> = Vec::new();
    assert(op_models(out@) =~= seq![]);
    if width == 0 {
        return out;
    }
    let ghost all = chunks::render_chunk_models(chunks_given@);
    let ghost ctx = LinkContext {
        focused: opt_link_info(focused),
        hovered: opt_link_info(hovered),
    };
    let ghost whole = chunk_ops(all, 0, width as int, 0, line_idx as int, ctx);
    let n: usize = chunks_given.len();
    let mut remaining: usize = width;
    let mut at: usize = 0;
    let mut i: usize = 0;
    let mut more = true;
    assert(op_models(out@) + whole =~= whole);
    while more && i < n && remaining > 0
        invariant
            n == chunks_given@.len(),
            all == chunks::render_chunk_models(chunks_given@),
            ctx == (LinkContext {
                focused: opt_link_info(focused),
                hovered: opt_link_info(hovered),
            }),
            chunks::chunks_text(all).len() <= usize::MAX,
            i <= n,
            more ==> at == chars_before(all, i as int),
            whole == (if more {
                op_models(out@) + chunk_ops(
                    all,
                    i as int,
                    remaining as int,
                    at as int,
                    line_idx as int,
                    ctx,
                )
            } else {
                op_models(out@)
            }),
        decreases n - i,
    {
        let chunk = &chunks_given[i];
        assert(all[i as int] == chunk@);
        let (visible, used, complete) = clip_to_width(chunk.text.as_str(), remaining);
        if visible.as_str().is_empty() && used == 0 && !complete {
            more = false;
            assert(op_models(out@) + seq![] =~= op_models(out@));
        } else {
            proof {
                lemma_chars_before(all, i as int);
                lemma_chars_before(all, i + 1);
            }
            let count: usize = visible.as_str().unicode_len();
            let end: usize = at + count;
            let ghost before = op_models(out@);
            let ghost here = style_ops(
                chunk_style(chunk@, ctx, line_idx as int, at as int, end as int),
            ) + print_ops(visible@, chunk@.hyperlink);
            let ghost rest = chunk_ops(
                all,
                i + 1,
                remaining - used,
                end as int,
                line_idx as int,
                ctx,
            );
            render_chunk(&mut out, chunk, visible, line_idx, at, end, focused, hovered);
            assert(before + (here + rest) =~= (before + here) + rest);
            if used >= remaining || !complete {
                more = false;
            } else {
                assert(visible@ =~= chunk@.text);
                remaining = remaining - used;
            }
            at = end;
        }
        i += 1;
    }
    assert(op_models(out@) + seq![] =~= op_models(out@));
    push_reset(&mut out);
    out
}

/// Draws a line into `width` columns; `None` where a highlight starts or ends inside a character.
pub fn try_render_line(
    line: &ParsedLine,
    line_idx: usize,
    highlights: &Vec<Highlight>,
    width: usize,
    focused: Option<&LinkInfo>,
    hovered: Option<&LinkInfo>,
) -> (r: Option<Vec<DrawOp>>)
    requires
        line@.partitioned(),
    ensures
        match r {
            Some(ops) => width == 0 && op_models(ops@) == Seq::<OpModel>::empty() || (
            chunks::chunks_of(line@, highlights@) is Some && op_models(ops@) == line_ops(
                chunks::chunks_of(line@, highlights@)->0,
                line_idx as int,
                width as int,
                LinkContext { focused: opt_link_info(focused), hovered: opt_link_info(hovered) },
            )),
            None => width > 0 && chunks::chunks_of(line@, highlights@) is None,
        },
{
    if width == 0 {
        let none: Vec<DrawOp> = Vec::new();
        assert(op_models(none@) =~= seq![]);
        return Some(none);
    }
    match line.try_to_render_chunks(highlights) {
        Some(c) => {
            let _size: usize = strings::str_len(line.plain.as_str());
            proof {
                chunks::law_chunks_keep_text(line@, highlights@);
                strings::lemma_byte_len(line@.plain);
            }
            Some(render_chunks(&c, line_idx, width, focused, hovered))
        },
        None => None,
    }
}

/// Draws a line into `width` columns.
pub fn render_line(
    line: &ParsedLine,
    line_idx: usize,
    highlights: &Vec<Highlight>,
    width: usize,
    focused: Option<&LinkInfo>,
    hovered: Option<&LinkInfo>,
) -> (r: Vec<DrawOp>)
    requires
        line@.partitioned(),
        chunks::chunks_of(line@, highlights@) is Some,
    ensures
        op_models(r@) == line_ops(
            chunks::chunks_of(line@, highlights@)->0,
            line_idx as int,
            width as int,
            LinkContext { focused: opt_link_info(focused), hovered: opt_link_info(hovered) },
        ),
{
    try_render_line(line, line_idx, highlights, width, focused, hovered).unwrap()
}

} // verus!
