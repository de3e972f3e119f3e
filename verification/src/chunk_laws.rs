//! Which part of a line is highlighted, and where its chunks are drawn.
use vstd::prelude::*;
use vstd::string::*;
use crate::ansi::{HyperlinkModel, LineModel, SegmentModel};
use crate::chunks;
use crate::chunks::{Highlight, RenderChunkModel};
use crate::screen;
use crate::screen::{LinkContext, OpModel};
use crate::screen_laws;
use crate::strings;
use crate::style::AnsiStyle;

verus! {

// ---------------------------------------------------------------------------
// Highlights
// ---------------------------------------------------------------------------

/// The style and hyperlink of the byte at offset `x` of chunks that follow each other.
pub open spec fn look_at(all: Seq<RenderChunkModel>, x: int) -> Option<
    (AnsiStyle, Option<HyperlinkModel>),
>
    decreases all.len(),
{
    if all.len() == 0 || x < 0 {
        None
    } else if x < strings::byte_len(all[0].text) {
        Some((all[0].style, all[0].hyperlink))
    } else {
        look_at(all.subrange(1, all.len() as int), x - strings::byte_len(all[0].text))
    }
}

/// Whether a highlight covers a byte.
pub open spec fn covers(h: Highlight, x: int) -> bool {
    h.start <= x < h.end
}

/// The first highlight at or after the `h`-th that covers a byte.
pub open spec fn first_covering(hl: Seq<Highlight>, h: int, x: int) -> Option<int>
    decreases hl.len() - h,
{
    if h < 0 || h >= hl.len() {
        None
    } else if covers(hl[h], x) {
        Some(h)
    } else {
        first_covering(hl, h + 1, x)
    }
}

/// Highlights sorted by their starts.
pub open spec fn by_start(hl: Seq<Highlight>) -> bool {
    &&& forall|i: int| 0 <= i < hl.len() ==> (#[trigger] hl[i]).start <= hl[i].end
    &&& forall|i: int, j: int|
        0 <= i < j < hl.len() ==> (#[trigger] hl[i]).start <= (#[trigger] hl[j]).start
}

/// The look of a byte of a segment, with highlights from the `h`-th on.
pub open spec fn look_of(seg: SegmentModel, hl: Seq<Highlight>, h: int, x: int) -> (
    AnsiStyle,
    Option<HyperlinkModel>,
) {
    (
        match first_covering(hl, h, x) {
            Some(i) => chunks::match_style(seg.style, hl[i].current),
            None => seg.style,
        },
        seg.hyperlink,
    )
}

proof fn lemma_none_covers(hl: Seq<Highlight>, h: int, x: int)
    requires
        0 <= h,
        forall|i: int| h <= i < hl.len() ==> !covers(#[trigger] hl[i], x),
    ensures
        first_covering(hl, h, x) is None,
    decreases hl.len() - h,
{
    if h < hl.len() {
        assert(!covers(hl[h], x));
        lemma_none_covers(hl, h + 1, x);
    }
}

pub proof fn lemma_some_covers(hl: Seq<Highlight>, h: int, j: int, x: int)
    requires
        0 <= h <= j < hl.len(),
        covers(hl[j], x),
    ensures
        first_covering(hl, h, x) matches Some(i) && h <= i <= j && covers(hl[i], x),
    decreases j - h,
{
    if h < j && !covers(hl[h], x) {
        lemma_some_covers(hl, h + 1, j, x);
    }
}

proof fn lemma_slice_size(s: Seq<char>, from: int, to: int)
    requires
        strings::byte_slice(s, from, to) is Some,
    ensures
        strings::byte_len(strings::byte_slice(s, from, to)->0) == to - from,
{
    let b = vstd::utf8::encode_utf8(s);
    vstd::utf8::encode_utf8_valid_utf8(s);
    strings::lemma_boundary_behind(b, from, to);
    vstd::utf8::decode_utf8_encode_utf8(b.subrange(from, to));
}

/// Segments that follow each other without gaps.
pub open spec fn placed(segs: Seq<SegmentModel>) -> bool {
    &&& forall|k: int| 0 <= k < segs.len() ==> (#[trigger] segs[k]).start < segs[k].end
    &&& forall|k: int, s: int|
        0 <= k < s < segs.len() ==> (#[trigger] segs[k]).end <= (#[trigger] segs[s]).start
    &&& forall|k: int, s: int|
        0 <= k && s == k + 1 && s < segs.len() ==> (#[trigger] segs[k]).end == (
        #[trigger] segs[s]).start
}

proof fn lemma_placed(line: LineModel)
    requires
        line.partitioned(),
    ensures
        placed(line.segments),
{
    let segs = line.segments;
    assert forall|k: int| 0 <= k < segs.len() implies (#[trigger] segs[k]).start < segs[k].end by {
        chunks::lemma_segment_bytes(line, k);
    }
    assert forall|k: int, s: int| 0 <= k < s < segs.len() implies (#[trigger] segs[k]).end <= (
    #[trigger] segs[s]).start by {
        chunks::lemma_segments_order(line, k, s);
    }
    assert forall|k: int, s: int| 0 <= k && s == k + 1 && s < segs.len() implies (
    #[trigger] segs[k]).end == (#[trigger] segs[s]).start by {
        chunks::lemma_segments_meet(line, k);
    }
}

/// The look of a byte of the piece that starts at `cursor`.
proof fn lemma_piece_look(seg: SegmentModel, hl: Seq<Highlight>, cursor: int, h: int, x: int)
    requires
        by_start(hl),
        0 <= h,
        h < hl.len() ==> cursor < hl[h].end,
        cursor <= x < chunks::piece_end(
            seg,
            cursor,
            if h < hl.len() {
                Some(hl[h])
            } else {
                None
            },
        ),
    ensures
        look_of(seg, hl, h, x) == (
            chunks::piece_style(
                seg,
                cursor,
                if h < hl.len() {
                    Some(hl[h])
                } else {
                    None
                },
            ),
            seg.hyperlink,
        ),
{
    if h < hl.len() {
        if hl[h].start > cursor {
            assert forall|i: int| h <= i < hl.len() implies !covers(#[trigger] hl[i], x) by {
                if i > h {
                    assert(hl[h].start <= hl[i].start);
                }
            }
            lemma_none_covers(hl, h, x);
        } else {
            assert(covers(hl[h], x));
        }
    }
}

/// The look of a byte behind a first chunk.
proof fn lemma_look_behind(first: RenderChunkModel, rest: Seq<RenderChunkModel>, size: int, x: int)
    requires
        strings::byte_len(first.text) == size,
        0 <= x,
    ensures
        look_at(seq![first] + rest, x) == (if x < size {
            Some((first.style, first.hyperlink))
        } else {
            look_at(rest, x - size)
        }),
{
    let all = seq![first] + rest;
    assert(all.subrange(1, all.len() as int) =~= rest);
}

proof fn lemma_look(
    segs: Seq<SegmentModel>,
    hl: Seq<Highlight>,
    k: int,
    cursor: int,
    h: int,
    s: int,
    x: int,
)
    requires
        placed(segs),
        by_start(hl),
        0 <= k <= s < segs.len(),
        0 <= h,
        segs[k].start <= cursor <= segs[k].end,
        segs[s].start <= x < segs[s].end,
        cursor <= x,
        chunks::chunks_from(segs, hl, k, cursor, h) is Some,
    ensures
        look_at(chunks::chunks_from(segs, hl, k, cursor, h)->0, x - cursor) == Some(
            look_of(segs[s], hl, h, x),
        ),
    decreases segs.len() - k, segs[k].end - cursor, hl.len() - h,
{
    let seg = segs[k];
    if cursor >= seg.end {
        assert(k < s);
        assert(segs[k].end == segs[k + 1].start);
        assert(segs[k + 1].start < segs[k + 1].end);
        lemma_look(segs, hl, k + 1, segs[k + 1].start, h, s, x);
    } else if h < hl.len() && hl[h].end <= cursor {
        lemma_look(segs, hl, k, cursor, h + 1, s, x);
        assert(!covers(hl[h], x));
    } else {
        let next = if h < hl.len() {
            Some(hl[h])
        } else {
            None
        };
        let end = chunks::piece_end(seg, cursor, next);
        let used = next is Some && (next->0).start <= cursor && end >= (next->0).end;
        let h2 = if used {
            h + 1
        } else {
            h
        };
        let (a, b) = (cursor - seg.start, end - seg.start);
        let piece = strings::byte_slice(seg.text, a, b)->0;
        let rest = chunks::chunks_from(segs, hl, k, end, h2)->0;
        let first = RenderChunkModel {
            text: piece,
            style: chunks::piece_style(seg, cursor, next),
            hyperlink: seg.hyperlink,
        };
        lemma_slice_size(seg.text, a, b);
        lemma_look_behind(first, rest, end - cursor, x - cursor);
        assert(cursor < end <= seg.end);
        if x < end {
            if k < s {
                assert(segs[k].end <= segs[s].start);
            }
            lemma_piece_look(seg, hl, cursor, h, x);
        } else {
            lemma_look(segs, hl, k, end, h2, s, x);
            if used {
                assert(!covers(hl[h], x));
            }
        }
    }
}

/// Exactly the bytes that a highlight covers look highlighted; the others look as the line has them.
/// Where highlights overlap, the first decides. Hyperlinks stay where they are.
pub proof fn law_highlighted_bytes(line: LineModel, hl: Seq<Highlight>, s: int, x: int)
    requires
        line.partitioned(),
        by_start(hl),
        chunks::chunks_of(line, hl) is Some,
        0 <= s < line.segments.len(),
        line.segments[s].start <= x < line.segments[s].end,
    ensures
        look_at(chunks::chunks_of(line, hl)->0, x) == Some(look_of(line.segments[s], hl, 0, x)),
        (forall|i: int| 0 <= i < hl.len() ==> !covers(#[trigger] hl[i], x)) ==> look_at(
            chunks::chunks_of(line, hl)->0,
            x,
        ) == Some((line.segments[s].style, line.segments[s].hyperlink)),
{
    lemma_placed(line);
    chunks::lemma_segment_bytes(line, 0);
    chunks::lemma_segments_order(line, 0, s);
    assert(line.segments.subrange(0, 0) =~= seq![]);
    assert(line.segments[0].start == 0) by {
        assert(vstd::utf8::encode_utf8(Seq::<char>::empty()) =~= Seq::<u8>::empty());
    }
    lemma_look(line.segments, hl, 0, line.segments[0].start, 0, s, x);
    if forall|i: int| 0 <= i < hl.len() ==> !covers(#[trigger] hl[i], x) {
        lemma_none_covers(hl, 0, x);
    }
}

// ---------------------------------------------------------------------------
// Chunks of a line
// ---------------------------------------------------------------------------

proof fn lemma_text_between(all: Seq<RenderChunkModel>, j: int, i: int)
    requires
        0 <= j < i <= all.len(),
    ensures
        chunks::chunks_text(all.subrange(j, i)) == all[j].text + chunks::chunks_text(
            all.subrange(j + 1, i),
        ),
{
    let part = all.subrange(j, i);
    assert(part.subrange(1, part.len() as int) =~= all.subrange(j + 1, i));
}

/// A text that fits is shown as a whole.
proof fn lemma_fits(s: Seq<char>, max: int)
    requires
        strings::text_columns(s) <= max,
        0 < max,
    ensures
        screen::clipped_text(s, max) == (s, strings::text_columns(s), true),
{
    screen_laws::law_clipped_text(s, max);
    let (text, used, complete) = screen::clipped_text(s, max);
    if text.len() < s.len() {
        let k = text.len() as int;
        let rest = s.subrange(k + 1, s.len() as int);
        screen_laws::lemma_text_columns(text.push(s[k]), rest);
        assert(text.push(s[k]) + rest =~= s);
        assert(text.push(s[k]).drop_last() =~= text);
        assert(text.push(s[k]).last() == s[k]);
    } else {
        assert(text =~= s);
    }
}

proof fn lemma_place(
    all: Seq<RenderChunkModel>,
    j: int,
    i: int,
    remaining: int,
    at: int,
    line_idx: int,
    ctx: LinkContext,
) -> (place: int)
    requires
        0 <= j <= i < all.len(),
        strings::text_columns(chunks::chunks_text(all.subrange(j, i))) < remaining,
    ensures
        ({
            let ops = screen::chunk_ops(all, j, remaining, at, line_idx, ctx);
            let t = chunks::chunks_text(all.subrange(j, i));
            &&& 0 <= place <= ops.len()
            &&& ops.subrange(place, ops.len() as int) == screen::chunk_ops(
                all,
                i,
                remaining - strings::text_columns(t),
                (at + t.len()) as int,
                line_idx,
                ctx,
            )
        }),
    decreases i - j,
{
    let ops = screen::chunk_ops(all, j, remaining, at, line_idx, ctx);
    let t = chunks::chunks_text(all.subrange(j, i));
    if j == i {
        assert(t =~= Seq::<char>::empty());
        assert(strings::text_columns(Seq::<char>::empty()) == 0);
        assert(ops.subrange(0, ops.len() as int) =~= ops);
        0
    } else {
        let c = all[j];
        let u = chunks::chunks_text(all.subrange(j + 1, i));
        lemma_text_between(all, j, i);
        screen_laws::lemma_text_columns(c.text, u);
        screen_laws::lemma_text_columns(Seq::<char>::empty(), c.text);
        let used = strings::text_columns(c.text);
        lemma_fits(c.text, remaining);
        let end = at + c.text.len();
        let here = screen::style_ops(screen::chunk_style(c, ctx, line_idx, at, end))
            + screen::print_ops(c.text, c.hyperlink);
        let more = screen::chunk_ops(all, j + 1, remaining - used, end, line_idx, ctx);
        assert(ops == here + more);
        let next = lemma_place(all, j + 1, i, remaining - used, end, line_idx, ctx);
        let place = here.len() + next;
        assert(ops.subrange(place, ops.len() as int) =~= more.subrange(next, more.len() as int));
        place
    }
}

/// Every chunk without a hyperlink that begins before the last column is drawn in its own style: the
/// style is selected right before as much of its text as fits is printed.
pub proof fn law_chunk_drawn(
    all: Seq<RenderChunkModel>,
    i: int,
    line_idx: int,
    width: int,
    ctx: LinkContext,
) -> (place: int)
    requires
        0 <= i < all.len(),
        strings::text_columns(chunks::chunks_text(all.subrange(0, i))) < width,
        all[i].hyperlink is None,
        (screen::clipped_text(
            all[i].text,
            width - strings::text_columns(chunks::chunks_text(all.subrange(0, i))),
        ).0).len() > 0,
    ensures
        ({
            let ops = screen::line_ops(all, line_idx, width, ctx);
            let before = chunks::chunks_text(all.subrange(0, i));
            let left = width - strings::text_columns(before);
            let visible = screen::clipped_text(all[i].text, left).0;
            let style = screen::style_ops(all[i].style);
            &&& 0 <= place
            &&& place + style.len() < ops.len()
            &&& ops.subrange(place, place + style.len()) == style
            &&& ops[place + style.len()] == OpModel::Print(visible)
            &&& screen_laws::shown_of(all[i].text, left, visible)
        }),
{
    let before = chunks::chunks_text(all.subrange(0, i));
    screen_laws::lemma_text_columns(Seq::<char>::empty(), before);
    let place = lemma_place(all, 0, i, width, 0, line_idx, ctx);
    lemma_drawn(all, i, line_idx, width, ctx, place);
    let left = width - strings::text_columns(before);
    screen_laws::law_clipped_text(all[i].text, left);
    let visible = screen::clipped_text(all[i].text, left).0;
    let print = screen::print_ops(visible, all[i].hyperlink);
    assert(print.len() == 1 && print[0] == OpModel::Print(visible));
    place
}

/// A chunk of a hyperlink is drawn in the style of links, as the characters of its line from as many
/// on as stand before it: whether it is the focused or the hovered link goes by those.
pub proof fn law_link_chunk_drawn(
    all: Seq<RenderChunkModel>,
    i: int,
    line_idx: int,
    width: int,
    ctx: LinkContext,
) -> (place: int)
    requires
        0 <= i < all.len(),
        strings::text_columns(chunks::chunks_text(all.subrange(0, i))) < width,
        all[i].hyperlink is Some,
        (screen::clipped_text(
            all[i].text,
            width - strings::text_columns(chunks::chunks_text(all.subrange(0, i))),
        ).0).len() > 0,
    ensures
        ({
            let ops = screen::line_ops(all, line_idx, width, ctx);
            let before = chunks::chunks_text(all.subrange(0, i));
            let n = before.len() as int;
            let left = width - strings::text_columns(before);
            let visible = screen::clipped_text(all[i].text, left).0;
            let style = screen::style_ops(
                screen::chunk_style(all[i], ctx, line_idx, n, n + visible.len()),
            );
            &&& 0 <= place
            &&& place + style.len() + 2 < ops.len()
            &&& ops.subrange(place, place + style.len()) == style
            &&& ops[place + style.len()] == OpModel::Print(
                screen::link_opening(all[i].hyperlink->0),
            )
            &&& ops[place + style.len() + 1] == OpModel::Print(visible)
            &&& ops[place + style.len() + 2] == OpModel::Print("\x1b]8;;\x07"@)
        }),
{
    let before = chunks::chunks_text(all.subrange(0, i));
    screen_laws::lemma_text_columns(Seq::<char>::empty(), before);
    let place = lemma_place(all, 0, i, width, 0, line_idx, ctx);
    lemma_drawn(all, i, line_idx, width, ctx, place);
    place
}

/// What stands where a chunk is drawn.
proof fn lemma_drawn(
    all: Seq<RenderChunkModel>,
    i: int,
    line_idx: int,
    width: int,
    ctx: LinkContext,
    place: int,
)
    requires
        0 <= i < all.len(),
        0 < width,
        strings::text_columns(chunks::chunks_text(all.subrange(0, i))) < width,
        (screen::clipped_text(
            all[i].text,
            width - strings::text_columns(chunks::chunks_text(all.subrange(0, i))),
        ).0).len() > 0,
        ({
            let ops = screen::chunk_ops(all, 0, width, 0, line_idx, ctx);
            let t = chunks::chunks_text(all.subrange(0, i));
            &&& 0 <= place <= ops.len()
            &&& ops.subrange(place, ops.len() as int) == screen::chunk_ops(
                all,
                i,
                width - strings::text_columns(t),
                t.len() as int,
                line_idx,
                ctx,
            )
        }),
    ensures
        ({
            let ops = screen::line_ops(all, line_idx, width, ctx);
            let t = chunks::chunks_text(all.subrange(0, i));
            let n = t.len() as int;
            let visible = screen::clipped_text(
                all[i].text,
                width - strings::text_columns(t),
            ).0;
            let style = screen::style_ops(
                screen::chunk_style(all[i], ctx, line_idx, n, n + visible.len()),
            );
            let print = screen::print_ops(visible, all[i].hyperlink);
            &&& place + style.len() + print.len() <= ops.len()
            &&& ops.subrange(place, place + style.len()) == style
            &&& forall|j: int|
                0 <= j < print.len() ==> ops[place + style.len() + j] == #[trigger] print[j]
        }),
{
    let inner = screen::chunk_ops(all, 0, width, 0, line_idx, ctx);
    let ops = screen::line_ops(all, line_idx, width, ctx);
    let t = chunks::chunks_text(all.subrange(0, i));
    let n = t.len() as int;
    let left = width - strings::text_columns(t);
    let tail = screen::chunk_ops(all, i, left, n, line_idx, ctx);
    let visible = screen::clipped_text(all[i].text, left).0;
    let style = screen::style_ops(screen::chunk_style(all[i], ctx, line_idx, n, n + visible.len()));
    let print = screen::print_ops(visible, all[i].hyperlink);
    let m = (style + print).len() as int;
    assert(m <= tail.len());
    assert forall|j: int| 0 <= j < m implies #[trigger] (style + print)[j] == ops[place + j] by {
        assert(tail[j] == (style + print)[j]);
        assert(inner.subrange(place, inner.len() as int)[j] == inner[place + j]);
    }
    assert forall|j: int| 0 <= j < style.len() implies ops.subrange(
        place,
        place + style.len(),
    )[j] == style[j] by {
        assert((style + print)[j] == ops[place + j]);
    }
    assert(ops.subrange(place, place + style.len()) =~= style);
    assert forall|j: int| 0 <= j < print.len() implies ops[place + style.len() + j]
        == #[trigger] print[j] by {
        assert((style + print)[style.len() + j] == ops[place + (style.len() + j)]);
    }
}

} // verus!
