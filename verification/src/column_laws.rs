//! Which columns of the screen a link covers.
use vstd::prelude::*;
use crate::ansi;
use crate::ansi::{HyperlinkModel, LineModel, SegmentModel};
use crate::links;
use crate::links::{LinkModel, LinkSpan, LinkWalk};
use crate::links_laws;
use crate::screen_laws;
use crate::strings;

verus! {

/// How many columns the first `n` characters of a text take.
pub open spec fn columns_before(t: Seq<char>, n: int) -> int {
    strings::text_columns(t.subrange(0, n))
}

/// A span of a line with text `t`: it starts in the column behind the text before it, and ends in
/// the column behind its own text, but covers at least one column.
pub open spec fn span_measured(s: LinkSpan, t: Seq<char>) -> bool {
    &&& s.start_char < s.end_char <= t.len()
    &&& s.start_col == columns_before(t, s.start_char as int)
    &&& s.end_col == (if columns_before(t, s.end_char as int) > s.start_col {
        columns_before(t, s.end_char as int)
    } else {
        s.start_col + 1
    })
}

/// The text of a line.
pub open spec fn line_text(lines: Seq<LineModel>, i: int) -> Seq<char> {
    ansi::segments_text(lines[i].segments)
}

/// A span collected up to the text `t` of line `line`.
spec fn known(s: LinkSpan, lines: Seq<LineModel>, line: int, t: Seq<char>) -> bool {
    &&& s.line_idx <= line
    &&& s.line_idx == line ==> span_measured(s, t)
    &&& s.line_idx < line ==> span_measured(s, line_text(lines, s.line_idx as int))
}

spec fn all_known(spans: Seq<LinkSpan>, lines: Seq<LineModel>, line: int, t: Seq<char>) -> bool {
    forall|j: int| 0 <= j < spans.len() ==> known(#[trigger] spans[j], lines, line, t)
}

spec fn links_known(all: Seq<LinkModel>, lines: Seq<LineModel>, line: int, t: Seq<char>) -> bool {
    forall|i: int| 0 <= i < all.len() ==> all_known((#[trigger] all[i]).spans, lines, line, t)
}

/// The columns of a text can be counted.
pub open spec fn countable(t: Seq<char>) -> bool {
    t.len() < usize::MAX && strings::text_columns(t) < usize::MAX
}

proof fn lemma_one_more(t: Seq<char>, c: char)
    ensures
        strings::text_columns(t.push(c)) == strings::text_columns(t) + strings::columns(c),
        0 <= strings::columns(c),
{
    assert(t.push(c).drop_last() =~= t);
    assert(t.push(c).last() == c);
}

proof fn lemma_no_more(t: Seq<char>, n: int)
    requires
        0 <= n <= t.len(),
    ensures
        0 <= columns_before(t, n) <= strings::text_columns(t),
{
    let head = t.subrange(0, n);
    let rest = t.subrange(n, t.len() as int);
    screen_laws::lemma_text_columns(head, rest);
    screen_laws::lemma_text_columns(Seq::<char>::empty(), head);
    assert(head + rest =~= t);
}

proof fn lemma_columns_push(t: Seq<char>, c: char, n: int)
    requires
        0 <= n <= t.len(),
    ensures
        columns_before(t.push(c), n) == columns_before(t, n),
        columns_before(t, n) <= strings::text_columns(t),
        columns_before(t, t.len() as int) == strings::text_columns(t),
        columns_before(t.push(c), t.len() as int + 1) == strings::text_columns(t)
            + strings::columns(c),
        strings::text_columns(t.push(c)) == strings::text_columns(t) + strings::columns(c),
        0 <= strings::text_columns(t),
        0 <= strings::columns(c),
{
    lemma_one_more(t, c);
    lemma_no_more(t, n);
    assert(t.push(c).subrange(0, n) =~= t.subrange(0, n));
    assert(t.subrange(0, t.len() as int) =~= t);
    assert(t.push(c).subrange(0, t.len() as int + 1) =~= t.push(c));
}

proof fn lemma_known_push(s: LinkSpan, lines: Seq<LineModel>, line: int, t: Seq<char>, c: char)
    requires
        known(s, lines, line, t),
    ensures
        known(s, lines, line, t.push(c)),
{
    if s.line_idx == line {
        lemma_columns_push(t, c, s.start_char as int);
        lemma_columns_push(t, c, s.end_char as int);
    }
}

proof fn lemma_extended(
    spans: Seq<LinkSpan>,
    lines: Seq<LineModel>,
    line: int,
    t: Seq<char>,
    c: char,
)
    requires
        all_known(spans, lines, line, t),
        0 <= line <= usize::MAX,
        countable(t.push(c)),
    ensures
        all_known(
            links::span_extended(
                spans,
                line,
                t.len() as int,
                strings::text_columns(t),
                strings::columns(c),
            ),
            lines,
            line,
            t.push(c),
        ),
{
    let r = links::span_extended(
        spans,
        line,
        t.len() as int,
        strings::text_columns(t),
        strings::columns(c),
    );
    let n = t.len() as int;
    lemma_columns_push(t, c, n);
    assert forall|j: int| 0 <= j < r.len() implies known(#[trigger] r[j], lines, line, t.push(c)) by {
        if j < spans.len() {
            assert(known(spans[j], lines, line, t));
            lemma_known_push(spans[j], lines, line, t, c);
            if spans[j].line_idx == line {
                lemma_columns_push(t, c, spans[j].start_char as int);
            }
            if j < spans.len() - 1 || r.len() > spans.len() {
                assert(r[j] == spans[j]);
            }
        }
    }
}

proof fn lemma_char(
    w: LinkWalk,
    link: Option<HyperlinkModel>,
    c: char,
    lines: Seq<LineModel>,
    line: int,
    t: Seq<char>,
)
    requires
        w.char_idx == t.len(),
        w.col == strings::text_columns(t),
        links_known(w.links, lines, line, t),
        0 <= line <= usize::MAX,
        countable(t.push(c)),
    ensures
        ({
            let r = links::char_walked(w, link, c, line);
            &&& r.char_idx == t.push(c).len()
            &&& r.col == strings::text_columns(t.push(c))
            &&& links_known(r.links, lines, line, t.push(c))
        }),
{
    let r = links::char_walked(w, link, c, line);
    lemma_columns_push(t, c, 0);
    let none = Seq::<LinkSpan>::empty();
    lemma_extended(none, lines, line, t, c);
    if let Some(h) = link {
        if let Some(id) = h.id {
            links_laws::lemma_link_with_id(w.links, id, 0);
        }
    }
    assert forall|i: int| 0 <= i < r.links.len() implies all_known(
        (#[trigger] r.links[i]).spans,
        lines,
        line,
        t.push(c),
    ) by {
        if i < w.links.len() {
            let spans = w.links[i].spans;
            assert(all_known(spans, lines, line, t));
            lemma_extended(spans, lines, line, t, c);
            assert(all_known(spans, lines, line, t.push(c))) by {
                assert forall|j: int| 0 <= j < spans.len() implies known(
                    #[trigger] spans[j],
                    lines,
                    line,
                    t.push(c),
                ) by {
                    lemma_known_push(spans[j], lines, line, t, c);
                }
            }
        }
    }
}

proof fn lemma_countable(a: Seq<char>, b: Seq<char>)
    requires
        countable(a + b),
    ensures
        countable(a),
{
    screen_laws::lemma_text_columns(a, b);
}

proof fn lemma_segment(
    w: LinkWalk,
    seg: SegmentModel,
    lines: Seq<LineModel>,
    line: int,
    j: int,
    t: Seq<char>,
)
    requires
        0 <= j <= seg.text.len(),
        w.char_idx == t.len(),
        w.col == strings::text_columns(t),
        links_known(w.links, lines, line, t),
        0 <= line <= usize::MAX,
        countable(t + seg.text.subrange(j, seg.text.len() as int)),
    ensures
        ({
            let r = links::segment_walked(w, seg, line, j);
            let u = t + seg.text.subrange(j, seg.text.len() as int);
            &&& r.char_idx == u.len()
            &&& r.col == strings::text_columns(u)
            &&& links_known(r.links, lines, line, u)
        }),
    decreases seg.text.len() - j,
{
    let tail = seg.text.subrange(j, seg.text.len() as int);
    if j < seg.text.len() {
        let c = seg.text[j];
        let rest = seg.text.subrange(j + 1, seg.text.len() as int);
        assert(t + tail =~= t.push(c) + rest);
        lemma_countable(t.push(c), rest);
        lemma_char(w, seg.hyperlink, c, lines, line, t);
        lemma_segment(
            links::char_walked(w, seg.hyperlink, c, line),
            seg,
            lines,
            line,
            j + 1,
            t.push(c),
        );
    } else {
        assert(t + tail =~= t);
    }
}

proof fn lemma_prefix(segs: Seq<SegmentModel>, k: int)
    requires
        0 <= k <= segs.len(),
        countable(ansi::segments_text(segs)),
    ensures
        countable(ansi::segments_text(segs.subrange(0, k))),
    decreases segs.len() - k,
{
    if k < segs.len() {
        lemma_prefix(segs, k + 1);
        let more = segs.subrange(0, k + 1);
        assert(more.drop_last() =~= segs.subrange(0, k));
        lemma_countable(ansi::segments_text(segs.subrange(0, k)), segs[k].text);
    } else {
        assert(segs.subrange(0, k) =~= segs);
    }
}

proof fn lemma_line(w: LinkWalk, lines: Seq<LineModel>, line: int, k: int)
    requires
        0 <= line < lines.len(),
        lines.len() <= usize::MAX,
        0 <= k <= lines[line].segments.len(),
        countable(line_text(lines, line)),
        ({
            let t = ansi::segments_text(lines[line].segments.subrange(0, k));
            &&& w.char_idx == t.len()
            &&& w.col == strings::text_columns(t)
            &&& links_known(w.links, lines, line, t)
        }),
    ensures
        links_known(
            links::line_walked(w, lines[line].segments, line, k).links,
            lines,
            line,
            line_text(lines, line),
        ),
    decreases lines[line].segments.len() - k,
{
    let segs = lines[line].segments;
    let t = ansi::segments_text(segs.subrange(0, k));
    if k < segs.len() {
        let seg = segs[k];
        let more = segs.subrange(0, k + 1);
        assert(more.drop_last() =~= segs.subrange(0, k));
        assert(more.last() == seg);
        assert(seg.text.subrange(0, seg.text.len() as int) =~= seg.text);
        lemma_prefix(segs, k + 1);
        lemma_segment(w, seg, lines, line, 0, t);
        lemma_line(links::segment_walked(w, seg, line, 0), lines, line, k + 1);
    } else {
        assert(segs.subrange(0, k) =~= segs);
    }
}

proof fn lemma_lines(all: Seq<LinkModel>, lines: Seq<LineModel>, k: int)
    requires
        0 <= k <= lines.len(),
        lines.len() <= usize::MAX,
        forall|i: int| 0 <= i < lines.len() ==> countable(#[trigger] line_text(lines, i)),
        links_known(all, lines, k, seq![]),
    ensures
        links_known(links::links_from(all, lines, k), lines, lines.len() as int, seq![]),
    decreases lines.len() - k,
{
    if k < lines.len() {
        let w = LinkWalk { links: all, char_idx: 0, col: 0 };
        assert(lines[k].segments.subrange(0, 0) =~= seq![]);
        assert(countable(line_text(lines, k)));
        lemma_line(w, lines, k, 0);
        let next = links::line_walked(w, lines[k].segments, k, 0).links;
        assert forall|i: int| 0 <= i < next.len() implies all_known(
            (#[trigger] next[i]).spans,
            lines,
            k + 1,
            seq![],
        ) by {
            let spans = next[i].spans;
            assert(all_known(spans, lines, k, line_text(lines, k)));
            assert forall|j: int| 0 <= j < spans.len() implies known(
                #[trigger] spans[j],
                lines,
                k + 1,
                seq![],
            ) by {
                assert(known(spans[j], lines, k, line_text(lines, k)));
            }
        }
        lemma_lines(next, lines, k + 1);
    }
}

/// A span of a link covers the columns where its characters are drawn: it starts in the column
/// behind the text before it on its line, and ends in the column behind its last character; a span
/// whose characters take no column covers one.
pub proof fn law_span_columns(lines: Seq<LineModel>, i: int, j: int)
    requires
        lines.len() <= usize::MAX,
        forall|k: int| 0 <= k < lines.len() ==> countable(#[trigger] line_text(lines, k)),
        0 <= i < links::links_of(lines).len(),
        0 <= j < links::links_of(lines)[i].spans.len(),
    ensures
        ({
            let s = links::links_of(lines)[i].spans[j];
            &&& s.line_idx < lines.len()
            &&& span_measured(s, line_text(lines, s.line_idx as int))
        }),
{
    lemma_lines(seq![], lines, 0);
    let all = links::links_of(lines);
    assert(all_known(all[i].spans, lines, lines.len() as int, seq![]));
    assert(known(all[i].spans[j], lines, lines.len() as int, seq![]));
}

// ---------------------------------------------------------------------------
// Addresses
// ---------------------------------------------------------------------------

/// Whether a link has its identifier and its address from a hyperlink of the text.
pub open spec fn from_text(l: LinkModel, lines: Seq<LineModel>) -> bool {
    exists|line: int, s: int|
        {
            &&& 0 <= line < lines.len()
            &&& 0 <= s < lines[line].segments.len()
            &&& (#[trigger] lines[line].segments[s]).hyperlink matches Some(h)
            &&& h.id == l.id
            &&& h.url == l.url
        }
}

spec fn all_from_text(all: Seq<LinkModel>, lines: Seq<LineModel>) -> bool {
    forall|i: int| 0 <= i < all.len() ==> from_text(#[trigger] all[i], lines)
}

proof fn lemma_segment_addresses(
    w: LinkWalk,
    lines: Seq<LineModel>,
    line: int,
    s: int,
    j: int,
)
    requires
        0 <= line < lines.len(),
        0 <= s < lines[line].segments.len(),
        all_from_text(w.links, lines),
    ensures
        all_from_text(
            links::segment_walked(w, lines[line].segments[s], line, j).links,
            lines,
        ),
    decreases lines[line].segments[s].text.len() - j,
{
    let seg = lines[line].segments[s];
    if 0 <= j < seg.text.len() {
        let next = links::char_walked(w, seg.hyperlink, seg.text[j], line);
        if let Some(h) = seg.hyperlink {
            if let Some(id) = h.id {
                links_laws::lemma_link_with_id(w.links, id, 0);
            }
        }
        assert(all_from_text(next.links, lines)) by {
            assert forall|i: int| 0 <= i < next.links.len() implies from_text(
                #[trigger] next.links[i],
                lines,
            ) by {
                if i < w.links.len() {
                    assert(from_text(w.links[i], lines));
                    assert(next.links[i].id == w.links[i].id && next.links[i].url
                        == w.links[i].url);
                } else {
                    assert(lines[line].segments[s].hyperlink is Some);
                }
            }
        }
        lemma_segment_addresses(next, lines, line, s, j + 1);
    }
}

proof fn lemma_line_addresses(w: LinkWalk, lines: Seq<LineModel>, line: int, k: int)
    requires
        0 <= line < lines.len(),
        0 <= k,
        all_from_text(w.links, lines),
    ensures
        all_from_text(links::line_walked(w, lines[line].segments, line, k).links, lines),
    decreases lines[line].segments.len() - k,
{
    if k < lines[line].segments.len() {
        lemma_segment_addresses(w, lines, line, k, 0);
        let next = links::segment_walked(w, lines[line].segments[k], line, 0);
        lemma_line_addresses(next, lines, line, k + 1);
    }
}

proof fn lemma_lines_addresses(all: Seq<LinkModel>, lines: Seq<LineModel>, k: int)
    requires
        0 <= k,
        all_from_text(all, lines),
    ensures
        all_from_text(links::links_from(all, lines, k), lines),
    decreases lines.len() - k,
{
    if k < lines.len() {
        let w = LinkWalk { links: all, char_idx: 0, col: 0 };
        lemma_line_addresses(w, lines, k, 0);
        lemma_lines_addresses(
            links::line_walked(w, lines[k].segments, k, 0).links,
            lines,
            k + 1,
        );
    }
}

/// No link is made up: each has its identifier and its address from one hyperlink of the text.
pub proof fn law_link_addresses(lines: Seq<LineModel>, i: int)
    requires
        0 <= i < links::links_of(lines).len(),
    ensures
        from_text(links::links_of(lines)[i], lines),
{
    lemma_lines_addresses(seq![], lines, 0);
}

} // verus!
