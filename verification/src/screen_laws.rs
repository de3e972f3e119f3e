//! What drawing a line shows: which text, in which columns, and in which style.
use vstd::prelude::*;
use vstd::string::*;
use crate::ansi::HyperlinkModel;
use crate::chunks;
use crate::chunks::RenderChunkModel;
use crate::links;
use crate::links::LinkModel;
use crate::scan;
use crate::screen;
use crate::screen::{LinkContext, OpModel};
use crate::strings;
use crate::style;
use crate::style::{AnsiStyle, Attribute, Color};
use crate::style_laws;

verus! {

// ---------------------------------------------------------------------------
// Columns
// ---------------------------------------------------------------------------

/// Columns add up.
pub proof fn lemma_text_columns(a: Seq<char>, b: Seq<char>)
    ensures
        strings::text_columns(a + b) == strings::text_columns(a) + strings::text_columns(b),
        0 <= strings::text_columns(b),
    decreases b.len(),
{
    if b.len() == 0 {
        assert(a + b =~= a);
    } else {
        lemma_text_columns(a, b.drop_last());
        assert((a + b).drop_last() =~= a + b.drop_last());
        assert((a + b).last() == b.last());
    }
}

/// At least one column.
pub open spec fn one_or(n: int) -> int {
    if n < 1 {
        1
    } else {
        n
    }
}

/// `p` is what is shown of `s` in `width` columns: it is the start of `s`, it fits, and no character
/// behind it that takes a column would fit too.
pub open spec fn shown_of(s: Seq<char>, width: int, p: Seq<char>) -> bool {
    &&& p.len() <= s.len()
    &&& p == s.subrange(0, p.len() as int)
    &&& strings::text_columns(p) <= width
    &&& p.len() < s.len() ==> strings::text_columns(p) + one_or(
        strings::columns(s[p.len() as int]),
    ) > width
}

proof fn lemma_fitting(s: Seq<char>, max: int, i: int, used: int)
    requires
        0 <= i <= s.len(),
        used == strings::text_columns(s.subrange(0, i)),
        used <= max,
    ensures
        ({
            let k = screen::fitting_end(s, max, i, used);
            &&& i <= k <= s.len()
            &&& strings::text_columns(s.subrange(0, k)) <= max
            &&& k < s.len() ==> strings::text_columns(s.subrange(0, k)) + strings::columns(s[k])
                > max
        }),
    decreases s.len() - i,
{
    if i < s.len() && used + strings::columns(s[i]) <= max {
        let next = s.subrange(0, i + 1);
        assert(next.drop_last() =~= s.subrange(0, i));
        assert(next.last() == s[i]);
        lemma_fitting(s, max, i + 1, used + strings::columns(s[i]));
    }
}

/// Clipping a text to columns gives what is shown of it, its columns, and whether it is all of it.
/// As much as can be is kept: the next character does not fit any more.
pub proof fn law_clipped_text(s: Seq<char>, max: int)
    requires
        0 <= max,
    ensures
        ({
            let (text, used, complete) = screen::clipped_text(s, max);
            &&& shown_of(s, max, text)
            &&& used == strings::text_columns(text)
            &&& max > 0 ==> complete == (text == s)
            &&& max == 0 ==> !complete && text.len() == 0
            &&& max > 0 && text.len() < s.len() ==> used + strings::columns(s[text.len() as int])
                > max
        }),
{
    assert(s.subrange(0, 0) =~= seq![]);
    lemma_fitting(s, max, 0, 0);
    let k = screen::fitting(s, max);
    let text = screen::clipped_text(s, max).0;
    assert(strings::text_columns(Seq::<char>::empty()) == 0);
    if max > 0 && s.len() > 0 {
        assert(text =~= s.subrange(0, k));
        assert(s.subrange(0, k) == s <==> k == s.len()) by {
            if k == s.len() {
                assert(s.subrange(0, k) =~= s);
            }
        }
    } else {
        assert(text =~= Seq::<char>::empty());
        assert(s.len() == 0 ==> text =~= s);
    }
    assert(text =~= s.subrange(0, text.len() as int));
}

proof fn lemma_spaces(n: int)
    requires
        0 <= n,
    ensures
        strings::text_columns(scan::spaces(n)) == n,
    decreases n,
{
    if n > 0 {
        lemma_spaces(n - 1);
        assert(scan::spaces(n).drop_last() =~= scan::spaces(n - 1));
        assert(scan::spaces(n).last() == ' ');
    }
}

/// A padded text takes exactly the given columns: it is what is shown of the text there, followed by
/// spaces only.
pub proof fn law_padded_text(s: Seq<char>, width: int) -> (kept: int)
    requires
        0 <= width,
    ensures
        ({
            let p = screen::padded_text(s, width);
            &&& strings::text_columns(p) == width
            &&& 0 <= kept <= p.len()
            &&& shown_of(s, width, p.subrange(0, kept))
            &&& forall|j: int| kept <= j < p.len() ==> #[trigger] p[j] == ' '
        }),
{
    assert(s.subrange(0, 0) =~= seq![]);
    let p = screen::padded_text(s, width);
    if width == 0 {
        assert(p.subrange(0, 0) =~= seq![]);
        0
    } else {
        lemma_fitting(s, width, 0, 0);
        let k = screen::fitting(s, width);
        let kept = s.subrange(0, k);
        let blank = width - strings::text_columns(kept);
        lemma_spaces(blank);
        lemma_text_columns(kept, scan::spaces(blank));
        assert(p.subrange(0, k) =~= kept);
        k
    }
}

// ---------------------------------------------------------------------------
// Printed text
// ---------------------------------------------------------------------------

/// The text that an operation puts on the screen; an escape sequence puts none there.
pub open spec fn op_text(op: OpModel) -> Seq<char> {
    match op {
        OpModel::Print(t) => if t.len() > 0 && t[0] == '\u{1b}' {
            seq![]
        } else {
            t
        },
        _ => seq![],
    }
}

/// The text that operations put on the screen.
pub open spec fn printed(ops: Seq<OpModel>) -> Seq<char>
    decreases ops.len(),
{
    if ops.len() == 0 {
        seq![]
    } else {
        printed(ops.drop_last()) + op_text(ops.last())
    }
}

/// No operation goes to another place.
pub open spec fn stays(ops: Seq<OpModel>) -> bool {
    forall|j: int| 0 <= j < ops.len() ==> !(#[trigger] ops[j] is MoveTo)
}

pub proof fn lemma_printed(a: Seq<OpModel>, b: Seq<OpModel>)
    ensures
        printed(a + b) == printed(a) + printed(b),
        stays(a) && stays(b) ==> stays(a + b),
    decreases b.len(),
{
    if b.len() == 0 {
        assert(a + b =~= a);
        assert(printed(a) + seq![] =~= printed(a));
    } else {
        lemma_printed(a, b.drop_last());
        assert((a + b).drop_last() =~= a + b.drop_last());
        assert((a + b).last() == b.last());
        assert(printed(a) + (printed(b.drop_last()) + op_text(b.last())) =~= (printed(a) + printed(
            b.drop_last(),
        )) + op_text(b.last()));
    }
}

/// Operations that print nothing.
pub proof fn lemma_silent(ops: Seq<OpModel>)
    requires
        forall|j: int| 0 <= j < ops.len() ==> !(#[trigger] ops[j] is Print),
    ensures
        printed(ops) == Seq::<char>::empty(),
    decreases ops.len(),
{
    if ops.len() > 0 {
        assert(!(ops[ops.len() - 1] is Print));
        let init = ops.drop_last();
        assert forall|j: int| 0 <= j < init.len() implies !(#[trigger] init[j] is Print) by {
            assert(init[j] == ops[j]);
        }
        lemma_silent(init);
    }
}

proof fn lemma_style_silent(s: AnsiStyle)
    ensures
        printed(screen::style_ops(s)) == Seq::<char>::empty(),
        stays(screen::style_ops(s)),
        printed(screen::reset_ops()) == Seq::<char>::empty(),
        stays(screen::reset_ops()),
{
    lemma_silent(screen::style_ops(s));
    lemma_silent(screen::reset_ops());
}

proof fn lemma_one(op: OpModel)
    ensures
        printed(seq![op]) == op_text(op),
{
    let one = seq![op];
    assert(one.drop_last() =~= Seq::<OpModel>::empty());
    assert(printed(Seq::<OpModel>::empty()) =~= Seq::<char>::empty());
    assert(Seq::<char>::empty() + op_text(op) =~= op_text(op));
}

/// The visible part of a chunk is printed as it is; around it stand only escape sequences.
proof fn lemma_print_ops(visible: Seq<char>, link: Option<HyperlinkModel>)
    requires
        visible.len() > 0 ==> visible[0] != '\u{1b}',
    ensures
        printed(screen::print_ops(visible, link)) == visible,
        stays(screen::print_ops(visible, link)),
{
    let none = Seq::<char>::empty();
    match link {
        Some(h) => {
            reveal_strlit("\x1b]8;");
            reveal_strlit("\x1b]8;;\x07");
            let open = OpModel::Print(screen::link_opening(h));
            let text = OpModel::Print(visible);
            let close = OpModel::Print("\x1b]8;;\x07"@);
            assert(screen::link_opening(h)[0] == '\u{1b}');
            lemma_one(open);
            lemma_one(text);
            lemma_one(close);
            lemma_printed(seq![open], seq![text]);
            lemma_printed(seq![open] + seq![text], seq![close]);
            assert(screen::print_ops(visible, link) =~= seq![open] + seq![text] + seq![close]);
            assert(none + visible + none =~= visible);
        },
        None => {
            lemma_one(OpModel::Print(visible));
        },
    }
}

/// Texts without an escape character.
pub open spec fn escape_free(s: Seq<char>) -> bool {
    forall|j: int| 0 <= j < s.len() ==> #[trigger] s[j] != '\u{1b}'
}

proof fn lemma_chunks_printed(
    all: Seq<RenderChunkModel>,
    i: int,
    remaining: int,
    at: int,
    line_idx: int,
    ctx: LinkContext,
)
    requires
        0 <= i <= all.len(),
        0 <= remaining,
        escape_free(chunks::chunks_text(all.subrange(i, all.len() as int))),
    ensures
        ({
            let ops = screen::chunk_ops(all, i, remaining, at, line_idx, ctx);
            &&& stays(ops)
            &&& shown_of(
                chunks::chunks_text(all.subrange(i, all.len() as int)),
                remaining,
                printed(ops),
            )
        }),
    decreases all.len() - i,
{
    let tail = all.subrange(i, all.len() as int);
    let t = chunks::chunks_text(tail);
    let ops = screen::chunk_ops(all, i, remaining, at, line_idx, ctx);
    if i >= all.len() || remaining == 0 {
        assert(printed(ops) =~= t.subrange(0, 0));
        assert(strings::text_columns(Seq::<char>::empty()) == 0);
    } else {
        let c = all[i];
        let rest = all.subrange(i + 1, all.len() as int);
        assert(tail.subrange(1, tail.len() as int) =~= rest);
        let u = chunks::chunks_text(rest);
        assert(t == c.text + u);
        assert forall|j: int| 0 <= j < u.len() implies #[trigger] u[j] != '\u{1b}' by {
            assert(t[c.text.len() + j] == u[j]);
        }
        law_clipped_text(c.text, remaining);
        let (visible, used, complete) = screen::clipped_text(c.text, remaining);
        if visible.len() == 0 && used == 0 && !complete {
            assert(printed(ops) =~= t.subrange(0, 0));
            assert(strings::text_columns(Seq::<char>::empty()) == 0);
            assert(t[0] == c.text[0]);
        } else {
            if visible.len() > 0 {
                assert(visible[0] == t[0]);
            }
            let end = at + visible.len();
            let s = screen::chunk_style(c, ctx, line_idx, at, end);
            let here = screen::style_ops(s) + screen::print_ops(visible, c.hyperlink);
            lemma_style_silent(s);
            lemma_print_ops(visible, c.hyperlink);
            lemma_printed(screen::style_ops(s), screen::print_ops(visible, c.hyperlink));
            assert(printed(here) =~= visible);
            if used >= remaining || !complete {
                assert(visible =~= t.subrange(0, visible.len() as int));
                if visible.len() < c.text.len() {
                    assert(t[visible.len() as int] == c.text[visible.len() as int]);
                } else {
                    assert(visible =~= c.text);
                }
                assert(ops == here);
                assert(shown_of(t, remaining, visible));
            } else {
                let more = screen::chunk_ops(all, i + 1, remaining - used, end, line_idx, ctx);
                lemma_chunks_printed(all, i + 1, remaining - used, end, line_idx, ctx);
                lemma_printed(here, more);
                let p = printed(more);
                lemma_text_columns(visible, p);
                assert(visible == c.text);
                assert(c.text + p =~= t.subrange(0, (c.text + p).len() as int));
                if p.len() < u.len() {
                    assert(t[(c.text + p).len() as int] == u[p.len() as int]);
                }
                assert(ops == here + more);
                assert(printed(ops) == c.text + p);
                assert(shown_of(t, remaining, c.text + p));
            }
        }
    }
}

/// Drawing a line prints the text of its chunks, as much of it as fits, and stays in its row.
pub proof fn law_line_printed(
    all: Seq<RenderChunkModel>,
    line_idx: int,
    width: int,
    ctx: LinkContext,
)
    requires
        0 <= width,
        escape_free(chunks::chunks_text(all)),
    ensures
        ({
            let ops = screen::line_ops(all, line_idx, width, ctx);
            &&& stays(ops)
            &&& shown_of(chunks::chunks_text(all), width, printed(ops))
        }),
{
    let t = chunks::chunks_text(all);
    assert(all.subrange(0, all.len() as int) =~= all);
    if width == 0 {
        assert(printed(screen::line_ops(all, line_idx, width, ctx)) =~= t.subrange(0, 0));
    } else {
        lemma_chunks_printed(all, 0, width, 0, line_idx, ctx);
        let ops = screen::chunk_ops(all, 0, width, 0, line_idx, ctx);
        lemma_style_silent(style::plain_style());
        lemma_printed(ops, screen::reset_ops());
        assert(printed(ops) + seq![] =~= printed(ops));
    }
}

// ---------------------------------------------------------------------------
// The pen
// ---------------------------------------------------------------------------

/// What the terminal draws text with.
#[verifier::ext_equal]
pub struct Pen {
    pub fg: Color,
    pub bg: Color,
    pub attributes: Set<Attribute>,
}

/// The pen of a terminal that was told nothing.
pub open spec fn plain_pen() -> Pen {
    Pen { fg: Color::Reset, bg: Color::Reset, attributes: Set::empty() }
}

/// What an operation makes of the pen.
pub open spec fn pen_after(p: Pen, op: OpModel) -> Pen {
    match op {
        OpModel::SetAttribute(Attribute::Reset) => plain_pen(),
        OpModel::SetAttribute(Attribute::NoReverse) => Pen {
            attributes: p.attributes.remove(Attribute::Reverse),
            ..p
        },
        OpModel::SetAttribute(a) => Pen { attributes: p.attributes.insert(a), ..p },
        OpModel::ResetColor => Pen { fg: Color::Reset, bg: Color::Reset, ..p },
        OpModel::SetForeground(c) => Pen { fg: c, ..p },
        OpModel::SetBackground(c) => Pen { bg: c, ..p },
        _ => p,
    }
}

/// What operations make of the pen.
pub open spec fn pen_after_all(p: Pen, ops: Seq<OpModel>) -> Pen
    decreases ops.len(),
{
    if ops.len() == 0 {
        p
    } else {
        pen_after(pen_after_all(p, ops.drop_last()), ops.last())
    }
}

proof fn lemma_pen(p: Pen, a: Seq<OpModel>, b: Seq<OpModel>)
    ensures
        pen_after_all(p, a + b) == pen_after_all(pen_after_all(p, a), b),
    decreases b.len(),
{
    if b.len() == 0 {
        assert(a + b =~= a);
    } else {
        lemma_pen(p, a, b.drop_last());
        assert((a + b).drop_last() =~= a + b.drop_last());
        assert((a + b).last() == b.last());
    }
}

proof fn lemma_pen_attributes(p: Pen, attrs: Seq<Attribute>)
    requires
        forall|i: int|
            0 <= i < attrs.len() ==> #[trigger] attrs[i] != Attribute::Reset && attrs[i]
                != Attribute::NoReverse,
    ensures
        ({
            let q = pen_after_all(p, screen::attribute_ops(attrs));
            &&& q.fg == p.fg
            &&& q.bg == p.bg
            &&& forall|x: Attribute|
                #[trigger] q.attributes.contains(x) <==> p.attributes.contains(x)
                    || attrs.contains(x)
        }),
    decreases attrs.len(),
{
    let ops = screen::attribute_ops(attrs);
    let q = pen_after_all(p, ops);
    if attrs.len() > 0 {
        let init = attrs.drop_last();
        assert forall|i: int| 0 <= i < init.len() implies #[trigger] init[i] != Attribute::Reset
            && init[i] != Attribute::NoReverse by {
            assert(init[i] == attrs[i]);
        }
        lemma_pen_attributes(p, init);
        assert(ops.drop_last() =~= screen::attribute_ops(init));
        assert(attrs[attrs.len() - 1] != Attribute::Reset && attrs[attrs.len() - 1]
            != Attribute::NoReverse);
        assert forall|x: Attribute|
            #[trigger] q.attributes.contains(x) <==> p.attributes.contains(x) || attrs.contains(
                x,
            ) by {
            assert(attrs.contains(x) <==> init.contains(x) || x == attrs.last()) by {
                if attrs.contains(x) {
                    let j = choose|j: int| 0 <= j < attrs.len() && attrs[j] == x;
                    if j < init.len() {
                        assert(init[j] == x);
                    }
                }
                if init.contains(x) {
                    let j = choose|j: int| 0 <= j < init.len() && init[j] == x;
                    assert(attrs[j] == x);
                }
                if x == attrs.last() {
                    assert(attrs[attrs.len() - 1] == x);
                }
            }
        }
    }
}

/// Selecting a style makes the pen that style, whatever it was before: its colours, or the
/// terminal's own, and exactly its attributes.
pub proof fn law_style_selected(p: Pen, s: AnsiStyle)
    ensures
        ({
            let q = pen_after_all(p, screen::style_ops(s));
            &&& s.fg matches Some(c) ==> q.fg == c
            &&& s.fg is None ==> q.fg == Color::Reset
            &&& s.bg matches Some(c) ==> q.bg == c
            &&& s.bg is None ==> q.bg == Color::Reset
            &&& forall|x: Attribute|
                #[trigger] q.attributes.contains(x) <==> exists|k: int|
                    1 <= k <= 9 && #[trigger] style_laws::flag(s.attributes, k) && x
                        == style_laws::attribute_name(k)
        }),
{
    let attrs = style::attributes_set(s.attributes);
    style_laws::law_attributes_listed(s.attributes);
    let reset = OpModel::SetAttribute(Attribute::Reset);
    let four = seq![
        reset,
        OpModel::ResetColor,
        OpModel::SetForeground(screen::color_or_reset(s.fg)),
        OpModel::SetBackground(screen::color_or_reset(s.bg)),
    ];
    let three = four.drop_last();
    let two = three.drop_last();
    let one = two.drop_last();
    assert(one.drop_last() =~= seq![]);
    assert(pen_after_all(p, one) == plain_pen());
    assert(pen_after_all(p, two) == plain_pen());
    let q = pen_after_all(p, four);
    assert(pen_after_all(p, three).attributes == Set::<Attribute>::empty());
    assert(q.attributes == Set::<Attribute>::empty());
    assert forall|i: int| 0 <= i < attrs.len() implies #[trigger] attrs[i] != Attribute::Reset
        && attrs[i] != Attribute::NoReverse by {
        assert(attrs.contains(attrs[i]));
    }
    lemma_pen(p, four, screen::attribute_ops(attrs));
    lemma_pen_attributes(q, attrs);
}

/// Drawing a line leaves the pen as the terminal has it.
pub proof fn law_line_leaves_plain_pen(
    p: Pen,
    all: Seq<RenderChunkModel>,
    line_idx: int,
    width: int,
    ctx: LinkContext,
)
    requires
        width > 0,
    ensures
        pen_after_all(p, screen::line_ops(all, line_idx, width, ctx)) == plain_pen(),
        pen_after_all(p, screen::reset_ops()) == plain_pen(),
{
    let ops = screen::chunk_ops(all, 0, width, 0, line_idx, ctx);
    let two = screen::reset_ops();
    let one = two.drop_last();
    assert(one.drop_last() =~= seq![]);
    lemma_pen(p, ops, two);
    let q = pen_after_all(p, ops);
    assert(pen_after_all(q, one) == plain_pen());
    assert(pen_after_all(p, one) == plain_pen());
}

/// The first chunk of a line is drawn in its own style, and in that of a link where it has one: the
/// operations before its text select that style.
pub proof fn law_first_chunk_style(
    p: Pen,
    all: Seq<RenderChunkModel>,
    i: int,
    remaining: int,
    at: int,
    line_idx: int,
    ctx: LinkContext,
)
    requires
        0 <= i < all.len(),
        0 < remaining,
        (screen::clipped_text(all[i].text, remaining).0).len() > 0,
    ensures
        ({
            let ops = screen::chunk_ops(all, i, remaining, at, line_idx, ctx);
            let visible = screen::clipped_text(all[i].text, remaining).0;
            let s = screen::chunk_style(all[i], ctx, line_idx, at, at + visible.len());
            let n = screen::style_ops(s).len() as int;
            &&& n < ops.len()
            &&& ops.subrange(0, n) == screen::style_ops(s)
            &&& all[i].hyperlink is None ==> ops[n] == OpModel::Print(visible)
            &&& all[i].hyperlink matches Some(h) ==> {
                &&& n + 2 < ops.len()
                &&& ops[n] == OpModel::Print(screen::link_opening(h))
                &&& ops[n + 1] == OpModel::Print(visible)
                &&& ops[n + 2] == OpModel::Print("\x1b]8;;\x07"@)
            }
        }),
{
    let ops = screen::chunk_ops(all, i, remaining, at, line_idx, ctx);
    let (visible, used, complete) = screen::clipped_text(all[i].text, remaining);
    let s = screen::chunk_style(all[i], ctx, line_idx, at, at + visible.len());
    assert(ops.subrange(0, screen::style_ops(s).len() as int) =~= screen::style_ops(s));
}

/// Text that is no link keeps its style. A link is underlined; it is white on blue where it is the
/// focused link, blue on grey where it is the hovered but not the focused one, and else blue.
pub proof fn law_chunk_style(
    c: RenderChunkModel,
    ctx: LinkContext,
    line_idx: int,
    start: int,
    end: int,
)
    ensures
        ({
            let s = screen::chunk_style(c, ctx, line_idx, start, end);
            let focused = ctx.focused matches Some(l) && overlapped(l, line_idx, start, end);
            let hovered = ctx.hovered matches Some(l) && overlapped(l, line_idx, start, end);
            if c.hyperlink is None {
                s == c.style
            } else {
                &&& style_laws::switched(c.style.attributes, s.attributes, 4, 4, true)
                &&& s.fg == Some(
                    if focused {
                        Color::White
                    } else {
                        Color::Blue
                    },
                )
                &&& s.bg == (if focused {
                    Some(Color::Blue)
                } else if hovered {
                    Some(Color::Grey)
                } else {
                    None
                })
            }
        }),
{
    if let Some(l) = ctx.focused {
        lemma_overlapped(l, line_idx, start, end);
    }
    if let Some(l) = ctx.hovered {
        lemma_overlapped(l, line_idx, start, end);
    }
}

/// Whether a link holds one of the characters from `start` up to (not including) `end` of a line.
pub open spec fn overlapped(l: LinkModel, line_idx: int, start: int, end: int) -> bool {
    exists|s: int|
        {
            &&& 0 <= s < l.spans.len()
            &&& (#[trigger] l.spans[s]).line_idx == line_idx
            &&& l.spans[s].start_char < end
            &&& start < l.spans[s].end_char
        }
}

proof fn lemma_overlapped(l: LinkModel, line_idx: int, start: int, end: int)
    ensures
        links::link_overlaps(l, line_idx, start, end) == overlapped(l, line_idx, start, end),
{
    if overlapped(l, line_idx, start, end) {
        let s = choose|s: int|
            {
                &&& 0 <= s < l.spans.len()
                &&& (#[trigger] l.spans[s]).line_idx == line_idx
                &&& l.spans[s].start_char < end
                &&& start < l.spans[s].end_char
            };
        assert(links::overlaps_chars(l.spans[s], line_idx, start, end));
    }
}

/// The escape sequence that opens a hyperlink holds its parameters and its address.
pub proof fn law_link_opening(h: HyperlinkModel)
    ensures
        ({
            let params = match h.params {
                Some(p) => p,
                None => seq![],
            };
            screen::link_opening(h) == seq!['\u{1b}', ']', '8', ';'] + params + seq![';'] + h.url
                + seq!['\u{7}']
        }),
{
    reveal_strlit("\x1b]8;");
    reveal_strlit(";");
    reveal_strlit("\x07");
    assert("\x1b]8;"@ =~= seq!['\u{1b}', ']', '8', ';']);
    assert(";"@ =~= seq![';']);
    assert("\x07"@ =~= seq!['\u{7}']);
}

} // verus!
