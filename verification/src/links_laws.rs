//! No hyperlink is lost, and none is confused with another: every character of one is covered by
//! exactly one span of one link.
use vstd::prelude::*;
use crate::ansi;
use crate::ansi::{HyperlinkModel, LineModel, SegmentModel};
use crate::links;
use crate::links::{LinkModel, LinkSpan, LinkWalk};
use crate::navigation;
use crate::state;
use crate::state::StateModel;
use crate::strings;

verus! {

/// Whether a span holds a character of a line.
pub open spec fn span_holds(s: LinkSpan, line_idx: int, char_idx: int) -> bool {
    s.line_idx == line_idx && s.start_char <= char_idx < s.end_char
}

/// Whether a link is the one that a hyperlink belongs to: by identifier, or by URL if it has none.
pub open spec fn belongs(l: LinkModel, h: HyperlinkModel) -> bool {
    match h.id {
        Some(id) => l.id == Some(id),
        None => l.id is None && l.url == h.url,
    }
}

/// Whether the link of a hyperlink holds a character of a line.
pub open spec fn held(links: Seq<LinkModel>, h: HyperlinkModel, line_idx: int, char_idx: int) -> bool {
    exists|i: int, j: int|
        0 <= i < links.len() && 0 <= j < links[i].spans.len() && span_holds(
            #[trigger] links[i].spans[j],
            line_idx,
            char_idx,
        ) && belongs(links[i], h)
}

pub proof fn lemma_link_with_id(all: Seq<LinkModel>, id: Seq<char>, i: int)
    requires
        0 <= i,
    ensures
        match links::link_with_id(all, id, i) {
            Some(k) => i <= k < all.len() && all[k].id == Some(id),
            None => true,
        },
    decreases all.len() - i,
{
    if i < all.len() {
        lemma_link_with_id(all, id, i + 1);
    }
}

/// All spans hold at least one character.
spec fn forward(all: Seq<LinkModel>) -> bool {
    forall|i: int, j: int|
        0 <= i < all.len() && 0 <= j < all[i].spans.len() ==> (
        #[trigger] all[i].spans[j]).start_char < all[i].spans[j].end_char
}

/// What is held by `a` is held by `b`.
spec fn keeps(a: Seq<LinkModel>, b: Seq<LinkModel>) -> bool {
    forall|g: HyperlinkModel, line: int, ch: int|
        held(a, g, line, ch) ==> #[trigger] held(b, g, line, ch)
}

/// A character of a hyperlink is held after it was collected, and what was held stays held.
proof fn lemma_collected(
    all: Seq<LinkModel>,
    h: HyperlinkModel,
    line_idx: int,
    char_idx: int,
    col: int,
    width: int,
)
    requires
        forward(all),
        0 <= line_idx <= usize::MAX,
        0 <= char_idx,
        char_idx + 1 <= usize::MAX,
    ensures
        forward(links::char_collected(all, h, line_idx, char_idx, col, width)),
        held(
            links::char_collected(all, h, line_idx, char_idx, col, width),
            h,
            line_idx,
            char_idx,
        ),
        keeps(all, links::char_collected(all, h, line_idx, char_idx, col, width)),
{
    let n = links::char_collected(all, h, line_idx, char_idx, col, width);
    let grown = match h.id {
        None => None,
        Some(id) => links::link_with_id(all, id, 0),
    };
    if h.id is Some {
        lemma_link_with_id(all, h.id->0, 0);
    }
    let at = match grown {
        Some(k) => k,
        None => all.len() as int,
    };
    let old_spans = match grown {
        Some(k) => all[k].spans,
        None => seq![],
    };
    let spans = links::span_extended(old_spans, line_idx, char_idx, col, width);
    assert(n[at].spans == spans);
    assert forall|j: int| 0 <= j < old_spans.len() implies (
    #[trigger] old_spans[j]).start_char < old_spans[j].end_char && spans[j].line_idx
        == old_spans[j].line_idx && spans[j].start_char == old_spans[j].start_char
        && spans[j].end_char >= old_spans[j].end_char by {
        assert(all[at].spans[j].start_char < all[at].spans[j].end_char);
    }
    let last = spans.len() - 1;
    assert(span_holds(n[at].spans[last], line_idx, char_idx)) by {
        if old_spans.len() > 0 && old_spans.last().line_idx == line_idx
            && old_spans.last().end_char == char_idx {
            assert(old_spans[last].start_char < old_spans[last].end_char);
        }
    }
    assert(belongs(n[at], h));
    assert(held(n, h, line_idx, char_idx));
    assert forall|i: int, j: int| 0 <= i < n.len() && 0 <= j < n[i].spans.len() implies (
    #[trigger] n[i].spans[j]).start_char < n[i].spans[j].end_char by {
        if i != at {
            assert(n[i] == all[i]);
            assert(all[i].spans[j].start_char < all[i].spans[j].end_char);
        } else if j < old_spans.len() {
            assert(old_spans[j].start_char < old_spans[j].end_char);
        }
    }
    assert forall|g: HyperlinkModel, line: int, ch: int|
        held(all, g, line, ch) implies #[trigger] held(n, g, line, ch) by {
        let (i, j) = choose|i: int, j: int|
            0 <= i < all.len() && 0 <= j < all[i].spans.len() && span_holds(
                #[trigger] all[i].spans[j],
                line,
                ch,
            ) && belongs(all[i], g);
        if i == at {
            assert(old_spans[j].start_char < old_spans[j].end_char);
            assert(span_holds(n[i].spans[j], line, ch));
            assert(belongs(n[i], g));
        } else {
            assert(n[i] == all[i]);
            assert(span_holds(n[i].spans[j], line, ch));
        }
    }
}

proof fn lemma_keeps_trans(a: Seq<LinkModel>, b: Seq<LinkModel>, c: Seq<LinkModel>)
    requires
        keeps(a, b),
        keeps(b, c),
    ensures
        keeps(a, c),
{
    assert forall|g: HyperlinkModel, line: int, ch: int|
        held(a, g, line, ch) implies #[trigger] held(c, g, line, ch) by {
        assert(held(b, g, line, ch));
    }
}

/// After a segment, its characters from the `j`-th on are held, and what was held stays held.
proof fn lemma_segment(w: LinkWalk, seg: SegmentModel, line_idx: int, j: int)
    requires
        forward(w.links),
        0 <= line_idx <= usize::MAX,
        0 <= j <= seg.text.len(),
        0 <= w.char_idx,
        w.char_idx + (seg.text.len() - j) + 1 <= usize::MAX,
    ensures
        ({
            let n = links::segment_walked(w, seg, line_idx, j);
            &&& forward(n.links)
            &&& n.char_idx == w.char_idx + (seg.text.len() - j)
            &&& keeps(w.links, n.links)
            &&& seg.hyperlink is Some ==> forall|x: int|
                j <= x < seg.text.len() ==> #[trigger] held(
                    n.links,
                    seg.hyperlink->0,
                    line_idx,
                    w.char_idx + (x - j),
                )
        }),
    decreases seg.text.len() - j,
{
    if j < seg.text.len() {
        let next = links::char_walked(w, seg.hyperlink, seg.text[j], line_idx);
        if let Some(h) = seg.hyperlink {
            lemma_collected(
                w.links,
                h,
                line_idx,
                w.char_idx,
                w.col,
                strings::columns(seg.text[j]),
            );
        }
        lemma_segment(next, seg, line_idx, j + 1);
        let n = links::segment_walked(w, seg, line_idx, j);
        lemma_keeps_trans(w.links, next.links, n.links);
        if let Some(h) = seg.hyperlink {
            assert forall|x: int| j <= x < seg.text.len() implies #[trigger] held(
                n.links,
                h,
                line_idx,
                w.char_idx + (x - j),
            ) by {
                if x == j {
                    assert(held(next.links, h, line_idx, w.char_idx));
                    assert(held(n.links, h, line_idx, w.char_idx));
                } else {
                    assert(held(n.links, h, line_idx, next.char_idx + (x - (j + 1))));
                }
            }
        }
    }
}

/// The number of characters in the segments before the `k`-th.
pub open spec fn chars_before(segs: Seq<SegmentModel>, k: int) -> int {
    ansi::segments_text(segs.subrange(0, k)).len() as int
}

proof fn lemma_chars_before(segs: Seq<SegmentModel>, k: int)
    requires
        0 <= k <= segs.len(),
    ensures
        chars_before(segs, k) <= ansi::segments_text(segs).len(),
        k < segs.len() ==> chars_before(segs, k + 1) == chars_before(segs, k)
            + segs[k].text.len(),
    decreases segs.len() - k,
{
    if k < segs.len() {
        lemma_chars_before(segs, k + 1);
        let more = segs.subrange(0, k + 1);
        assert(more.drop_last() =~= segs.subrange(0, k));
        assert(more.last() == segs[k]);
    } else {
        assert(segs.subrange(0, k) =~= segs);
    }
}

/// After a line, the characters of its segments from the `k`-th on are held.
proof fn lemma_line(w: LinkWalk, segs: Seq<SegmentModel>, line_idx: int, k: int)
    requires
        forward(w.links),
        0 <= line_idx <= usize::MAX,
        0 <= k <= segs.len(),
        w.char_idx == chars_before(segs, k),
        ansi::segments_text(segs).len() + 1 <= usize::MAX,
    ensures
        ({
            let n = links::line_walked(w, segs, line_idx, k);
            &&& forward(n.links)
            &&& keeps(w.links, n.links)
            &&& forall|s: int, x: int|
                k <= s < segs.len() && 0 <= x < segs[s].text.len() && segs[s].hyperlink is Some
                    ==> held(
                    n.links,
                    segs[s].hyperlink->0,
                    line_idx,
                    #[trigger] char_number(segs, s, x),
                )
        }),
    decreases segs.len() - k,
{
    if k < segs.len() {
        lemma_chars_before(segs, k);
        lemma_chars_before(segs, k + 1);
        lemma_segment(w, segs[k], line_idx, 0);
        let next = links::segment_walked(w, segs[k], line_idx, 0);
        lemma_line(next, segs, line_idx, k + 1);
        let n = links::line_walked(w, segs, line_idx, k);
        lemma_keeps_trans(w.links, next.links, n.links);
        assert forall|s: int, x: int|
            k <= s < segs.len() && 0 <= x < segs[s].text.len()
                && segs[s].hyperlink is Some implies held(
            n.links,
            segs[s].hyperlink->0,
            line_idx,
            #[trigger] char_number(segs, s, x),
        ) by {
            if s == k {
                assert(held(next.links, segs[k].hyperlink->0, line_idx, w.char_idx + (x - 0)));
                assert(held(n.links, segs[k].hyperlink->0, line_idx, char_number(segs, s, x)));
            }
        }
    }
}

/// The number of the `x`-th character of the `s`-th segment on its line.
pub open spec fn char_number(segs: Seq<SegmentModel>, s: int, x: int) -> int {
    chars_before(segs, s) + x
}

/// After the lines from the `k`-th on, the characters of their hyperlinks are held.
proof fn lemma_lines(all: Seq<LinkModel>, lines: Seq<LineModel>, k: int, line: int, s: int, x: int)
    requires
        forward(all),
        0 <= k <= lines.len() <= usize::MAX,
        links::content_fits(lines),
    ensures
        forward(links::links_from(all, lines, k)),
        keeps(all, links::links_from(all, lines, k)),
        k <= line < lines.len() && 0 <= s < lines[line].segments.len() && 0 <= x
            < lines[line].segments[s].text.len() && lines[line].segments[s].hyperlink is Some
            ==> held(
            links::links_from(all, lines, k),
            lines[line].segments[s].hyperlink->0,
            line,
            char_number(lines[line].segments, s, x),
        ),
    decreases lines.len() - k,
{
    if k < lines.len() {
        let segs = lines[k].segments;
        assert(links::line_fits(lines[k]));
        let w = LinkWalk { links: all, char_idx: 0, col: 0 };
        assert(segs.subrange(0, 0) =~= seq![]);
        lemma_line(w, segs, k, 0);
        let next = links::line_walked(w, segs, k, 0).links;
        lemma_lines(next, lines, k + 1, line, s, x);
        let end = links::links_from(all, lines, k);
        lemma_keeps_trans(all, next, end);
        if line == k && 0 <= s < segs.len() && 0 <= x < segs[s].text.len()
            && segs[s].hyperlink is Some {
            assert(held(next, segs[s].hyperlink->0, k, char_number(segs, s, x)));
            assert(held(end, segs[s].hyperlink->0, k, char_number(segs, s, x)));
        }
    }
}

/// Every character of a hyperlink is held by the link that the hyperlink belongs to.
pub proof fn law_hyperlinks_held(lines: Seq<LineModel>, line: int, s: int, x: int)
    requires
        lines.len() <= usize::MAX,
        links::content_fits(lines),
        0 <= line < lines.len(),
        0 <= s < lines[line].segments.len(),
        0 <= x < lines[line].segments[s].text.len(),
        lines[line].segments[s].hyperlink is Some,
    ensures
        held(
            links::links_of(lines),
            lines[line].segments[s].hyperlink->0,
            line,
            char_number(lines[line].segments, s, x),
        ),
{
    lemma_lines(seq![], lines, 0, line, s, x);
}

// ---------------------------------------------------------------------------
// No character is linked twice
// ---------------------------------------------------------------------------

/// Whether a character of a line belongs to a hyperlink.
pub open spec fn linked(lines: Seq<LineModel>, line: int, ch: int) -> bool {
    &&& 0 <= line < lines.len()
    &&& exists|s: int, x: int|
        {
            &&& 0 <= s < lines[line].segments.len()
            &&& 0 <= x < lines[line].segments[s].text.len()
            &&& lines[line].segments[s].hyperlink is Some
            &&& #[trigger] char_number(lines[line].segments, s, x) == ch
        }
}

/// Whether two spans have no character in common.
pub open spec fn apart(s: LinkSpan, t: LinkSpan) -> bool {
    s.line_idx != t.line_idx || s.end_char <= t.start_char || t.end_char <= s.start_char
}

/// Whether a span holds only characters that belong to hyperlinks.
pub open spec fn holds_linked(lines: Seq<LineModel>, s: LinkSpan) -> bool {
    forall|c: int| s.start_char <= c < s.end_char ==> #[trigger] linked(lines, s.line_idx as int, c)
}

/// No two links have the same identifier.
pub open spec fn ids_distinct(all: Seq<LinkModel>) -> bool {
    forall|i: int, k: int|
        0 <= i < k < all.len() && all[i].id is Some ==> (#[trigger] all[i]).id != (
        #[trigger] all[k]).id
}

/// Links collected up to character `ch` of line `line`: no two have the same identifier, every
/// link has a span, every span lies before that place and holds characters of hyperlinks only, and
/// no character is in two spans.
pub open spec fn orderly(all: Seq<LinkModel>, lines: Seq<LineModel>, line: int, ch: int) -> bool {
    &&& ids_distinct(all)
    &&& forall|i: int| 0 <= i < all.len() ==> (#[trigger] all[i]).spans.len() > 0
    &&& forall|i: int, j: int|
        0 <= i < all.len() && 0 <= j < all[i].spans.len() ==> {
            let s = #[trigger] all[i].spans[j];
            &&& s.start_char < s.end_char
            &&& s.line_idx < line || (s.line_idx == line && s.end_char <= ch)
            &&& holds_linked(lines, s)
        }
    &&& forall|i: int, j: int, k: int, l: int|
        0 <= i < all.len() && 0 <= j < all[i].spans.len() && 0 <= k < all.len() && 0 <= l
            < all[k].spans.len() && (i != k || j != l) ==> apart(
            #[trigger] all[i].spans[j],
            #[trigger] all[k].spans[l],
        )
}

proof fn lemma_no_link_with_id(all: Seq<LinkModel>, id: Seq<char>, i: int)
    requires
        0 <= i,
        links::link_with_id(all, id, i) is None,
    ensures
        forall|k: int| i <= k < all.len() ==> (#[trigger] all[k]).id != Some(id),
    decreases all.len() - i,
{
    if i < all.len() {
        lemma_no_link_with_id(all, id, i + 1);
    }
}

/// A character of a hyperlink keeps the links orderly.
proof fn lemma_orderly_char(
    all: Seq<LinkModel>,
    lines: Seq<LineModel>,
    h: HyperlinkModel,
    line: int,
    ch: int,
    col: int,
    width: int,
)
    requires
        orderly(all, lines, line, ch),
        linked(lines, line, ch),
        0 <= line <= usize::MAX,
        0 <= ch,
        ch + 1 <= usize::MAX,
    ensures
        orderly(links::char_collected(all, h, line, ch, col, width), lines, line, ch + 1),
{
    let n = links::char_collected(all, h, line, ch, col, width);
    let grown = match h.id {
        None => None,
        Some(id) => links::link_with_id(all, id, 0),
    };
    if h.id is Some {
        lemma_link_with_id(all, h.id->0, 0);
        if grown is None {
            lemma_no_link_with_id(all, h.id->0, 0);
        }
    }
    let at = match grown {
        Some(k) => k,
        None => all.len() as int,
    };
    let old_spans = match grown {
        Some(k) => all[k].spans,
        None => seq![],
    };
    let spans = links::span_extended(old_spans, line, ch, col, width);
    let last = spans.len() - 1;
    let grows = old_spans.len() > 0 && old_spans.last().line_idx == line
        && old_spans.last().end_char == ch;
    assert(n[at].spans == spans);
    assert(forall|i: int| 0 <= i < n.len() && i != at ==> n[i] == all[i]);
    assert(forall|j: int| 0 <= j < last ==> spans[j] == old_spans[j]);
    let t = spans[last];
    assert(t.line_idx == line && t.end_char == ch + 1);
    assert(ids_distinct(n)) by {
        assert forall|i: int, k: int| 0 <= i < k < n.len() && n[i].id is Some implies (
        #[trigger] n[i]).id != (#[trigger] n[k]).id by {
            if grown is Some {
                assert(n[i].id == all[i].id && n[k].id == all[k].id);
            } else {
                assert(n[i] == all[i]);
                if k < at {
                    assert(n[k] == all[k]);
                }
            }
        }
    }
    // The last span of the link is new or has grown by the character.
    assert(t.start_char < t.end_char && holds_linked(lines, t)) by {
        if grows {
            let o = all[at].spans[last];
            assert(holds_linked(lines, o));
            assert forall|c: int| t.start_char <= c < t.end_char implies #[trigger] linked(
                lines,
                line,
                c,
            ) by {
                if c < ch {
                    assert(linked(lines, o.line_idx as int, c));
                }
            }
        } else {
            assert forall|c: int| t.start_char <= c < t.end_char implies #[trigger] linked(
                lines,
                line,
                c,
            ) by {
                assert(c == ch);
            }
        }
    }
    assert forall|i: int| 0 <= i < n.len() implies (#[trigger] n[i]).spans.len() > 0 by {
        if i != at {
            assert(n[i] == all[i]);
        }
    }
    assert forall|i: int, j: int| 0 <= i < n.len() && 0 <= j < n[i].spans.len() implies {
        let s = #[trigger] n[i].spans[j];
        &&& s.start_char < s.end_char
        &&& s.line_idx < line || (s.line_idx == line && s.end_char <= ch + 1)
        &&& holds_linked(lines, s)
    } by {
        if i != at || j != last {
            assert(n[i].spans[j] == all[i].spans[j]);
        }
    }
    assert forall|i: int, j: int| 0 <= i < n.len() && 0 <= j < n[i].spans.len() && (i != at || j
        != last) implies apart(#[trigger] n[i].spans[j], t) && apart(t, n[i].spans[j]) by {
        let s = all[i].spans[j];
        assert(n[i].spans[j] == s);
        if grows {
            let o = all[at].spans[last];
            assert(apart(s, o));
        }
    }
    assert forall|i: int, j: int, k: int, l: int|
        0 <= i < n.len() && 0 <= j < n[i].spans.len() && 0 <= k < n.len() && 0 <= l
            < n[k].spans.len() && (i != k || j != l) implies apart(
        #[trigger] n[i].spans[j],
        #[trigger] n[k].spans[l],
    ) by {
        if (i != at || j != last) && (k != at || l != last) {
            assert(n[i].spans[j] == all[i].spans[j]);
            assert(n[k].spans[l] == all[k].spans[l]);
        }
    }
}

proof fn lemma_orderly_segment(
    w: LinkWalk,
    lines: Seq<LineModel>,
    line: int,
    k: int,
    j: int,
)
    requires
        0 <= line < lines.len() <= usize::MAX,
        0 <= k < lines[line].segments.len(),
        0 <= j <= lines[line].segments[k].text.len(),
        orderly(w.links, lines, line, w.char_idx),
        w.char_idx == char_number(lines[line].segments, k, j),
        w.char_idx + (lines[line].segments[k].text.len() - j) + 1 <= usize::MAX,
    ensures
        ({
            let seg = lines[line].segments[k];
            let n = links::segment_walked(w, seg, line, j);
            &&& orderly(n.links, lines, line, n.char_idx)
            &&& n.char_idx == w.char_idx + (seg.text.len() - j)
        }),
    decreases lines[line].segments[k].text.len() - j,
{
    let seg = lines[line].segments[k];
    if j < seg.text.len() {
        let next = links::char_walked(w, seg.hyperlink, seg.text[j], line);
        if let Some(h) = seg.hyperlink {
            assert(linked(lines, line, w.char_idx));
            lemma_orderly_char(
                w.links,
                lines,
                h,
                line,
                w.char_idx,
                w.col,
                strings::columns(seg.text[j]),
            );
        }
        lemma_orderly_segment(next, lines, line, k, j + 1);
    }
}

proof fn lemma_orderly_line(w: LinkWalk, lines: Seq<LineModel>, line: int, k: int)
    requires
        0 <= line < lines.len() <= usize::MAX,
        0 <= k <= lines[line].segments.len(),
        orderly(w.links, lines, line, w.char_idx),
        w.char_idx == chars_before(lines[line].segments, k),
        ansi::segments_text(lines[line].segments).len() + 1 <= usize::MAX,
    ensures
        ({
            let n = links::line_walked(w, lines[line].segments, line, k);
            orderly(n.links, lines, line, n.char_idx)
        }),
    decreases lines[line].segments.len() - k,
{
    let segs = lines[line].segments;
    if k < segs.len() {
        lemma_chars_before(segs, k);
        lemma_chars_before(segs, k + 1);
        lemma_orderly_segment(w, lines, line, k, 0);
        lemma_orderly_line(
            links::segment_walked(w, segs[k], line, 0),
            lines,
            line,
            k + 1,
        );
    }
}

proof fn lemma_orderly_lines(all: Seq<LinkModel>, lines: Seq<LineModel>, k: int)
    requires
        0 <= k <= lines.len() <= usize::MAX,
        links::content_fits(lines),
        orderly(all, lines, k, 0),
    ensures
        orderly(links::links_from(all, lines, k), lines, lines.len() as int, 0),
    decreases lines.len() - k,
{
    if k < lines.len() {
        let segs = lines[k].segments;
        assert(links::line_fits(lines[k]));
        let w = LinkWalk { links: all, char_idx: 0, col: 0 };
        assert(segs.subrange(0, 0) =~= seq![]);
        lemma_orderly_line(w, lines, k, 0);
        lemma_orderly_lines(links::line_walked(w, segs, k, 0).links, lines, k + 1);
    }
}

/// The links of a document are orderly.
pub proof fn lemma_links_orderly(lines: Seq<LineModel>)
    requires
        lines.len() <= usize::MAX,
        links::content_fits(lines),
    ensures
        orderly(links::links_of(lines), lines, lines.len() as int, 0),
{
    lemma_orderly_lines(seq![], lines, 0);
}

/// The identifiers of links are pairwise distinct.
pub proof fn law_link_ids_distinct(lines: Seq<LineModel>)
    requires
        lines.len() <= usize::MAX,
        links::content_fits(lines),
    ensures
        ids_distinct(links::links_of(lines)),
{
    lemma_links_orderly(lines);
}

/// Only characters of hyperlinks lie in a span, and none lies in two: a span that holds a character
/// is the only one. (That every character of a hyperlink lies in a span is stated by
/// `law_hyperlinks_held`.)
pub proof fn law_one_span_per_character(
    lines: Seq<LineModel>,
    line: int,
    ch: int,
    i: int,
    j: int,
)
    requires
        lines.len() <= usize::MAX,
        links::content_fits(lines),
        0 <= i < links::links_of(lines).len(),
        0 <= j < links::links_of(lines)[i].spans.len(),
        span_holds(links::links_of(lines)[i].spans[j], line, ch),
    ensures
        linked(lines, line, ch),
        forall|k: int, l: int|
            0 <= k < links::links_of(lines).len() && 0 <= l < links::links_of(lines)[k].spans.len()
                && span_holds(#[trigger] links::links_of(lines)[k].spans[l], line, ch) ==> k == i
                && l == j,
{
    lemma_links_orderly(lines);
    let all = links::links_of(lines);
    let s = all[i].spans[j];
    assert(holds_linked(lines, s));
    assert forall|k: int, l: int|
        0 <= k < all.len() && 0 <= l < all[k].spans.len() && span_holds(
            #[trigger] all[k].spans[l],
            line,
            ch,
        ) implies k == i && l == j by {
        if k != i || l != j {
            assert(apart(all[k].spans[l], all[i].spans[j]));
        }
    }
}

// ---------------------------------------------------------------------------
// Rebuilding
// ---------------------------------------------------------------------------

/// A link is the first one that is the same link.
proof fn lemma_found_itself(lines: Seq<LineModel>, i: int, k: int)
    requires
        lines.len() <= usize::MAX,
        links::content_fits(lines),
        0 <= k <= i < links::links_of(lines).len(),
    ensures
        navigation::same_link_in(links::links_of(lines), links::links_of(lines)[i], k) == Some(
            i as usize,
        ),
    decreases i - k,
{
    let all = links::links_of(lines);
    lemma_links_orderly(lines);
    if k < i {
        lemma_found_itself(lines, i, k + 1);
        let (a, b) = (all[k], all[i]);
        assert(a.spans.len() > 0 && b.spans.len() > 0);
        assert(apart(all[k].spans[0], all[i].spans[0]));
        assert(all[k].spans[0].start_char < all[k].spans[0].end_char);
        assert(all[i].spans[0].start_char < all[i].spans[0].end_char);
        assert(!navigation::same_link(a, b));
    }
}

/// Rebuilding the links from the same content keeps the links, the focus and the hover.
pub proof fn law_rebuilding_keeps_links(m: StateModel, lines: Seq<LineModel>)
    requires
        lines.len() <= usize::MAX,
        links::content_fits(lines),
        m.links == links::links_of(lines),
        m.links.len() <= usize::MAX,
        state::index_ok(m.focused, m.links.len() as int),
        state::index_ok(m.hovered, m.links.len() as int),
    ensures
        navigation::links_rebuilt(m, links::links_of(lines)) == m,
{
    if let Some(i) = m.focused {
        lemma_found_itself(lines, i as int, 0);
    }
    if let Some(i) = m.hovered {
        lemma_found_itself(lines, i as int, 0);
    }
}

} // verus!
