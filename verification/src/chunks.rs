//! Cutting a parsed line into chunks of one style, with search matches highlighted.
use vstd::prelude::*;
use vstd::string::*;
use crate::ansi;
use crate::ansi::{copy_link, HyperlinkModel, LineModel, ParsedHyperlink, ParsedLine, SegmentModel};
use crate::strings;
use crate::strings::slice_text;
use crate::style;
use crate::style::{AnsiStyle, Color};

verus! {

/// A byte range of a line to highlight, and whether it is the current match.
#[derive(Clone, Copy, Debug, PartialEq, Eq, Structural)]
pub struct Highlight {
    pub start: usize,
    pub end: usize,
    pub current: bool,
}

/// A piece of text with one style and one hyperlink.
pub struct RenderChunk {
    pub text: String,
    pub style: AnsiStyle,
    pub hyperlink: Option<ParsedHyperlink>,
}

#[verifier::ext_equal]
pub struct RenderChunkModel {
    pub text: Seq<char>,
    pub style: AnsiStyle,
    pub hyperlink: Option<HyperlinkModel>,
}

impl View for RenderChunk {
    type V = RenderChunkModel;

    open spec fn view(&self) -> RenderChunkModel {
        RenderChunkModel {
            text: self.text@,
            style: self.style,
            hyperlink: ansi::opt_link(self.hyperlink),
        }
    }
}

pub open spec fn render_chunk_models(v: Seq<RenderChunk>) -> Seq<RenderChunkModel> {
    Seq::new(v.len(), |i: int| v[i]@)
}

/// The style of a highlighted piece: black on yellow and bold for the current match, black on cyan
/// for the others.
pub open spec fn match_style(s: AnsiStyle, current: bool) -> AnsiStyle {
    if current {
        style::highlighted(s, Color::Black, Color::Yellow, true)
    } else {
        style::highlighted(s, Color::Black, Color::Cyan, false)
    }
}

/// Where the piece that starts at `cursor` ends, given the next highlight.
pub open spec fn piece_end(seg: SegmentModel, cursor: int, next: Option<Highlight>) -> int {
    match next {
        Some(h) => {
            let stop = if h.start > cursor {
                h.start as int
            } else {
                h.end as int
            };
            if stop <= seg.end {
                stop
            } else {
                seg.end
            }
        },
        None => seg.end,
    }
}

/// The style of the piece that starts at `cursor`, given the next highlight.
pub open spec fn piece_style(seg: SegmentModel, cursor: int, next: Option<Highlight>) -> AnsiStyle {
    match next {
        Some(h) => if h.start > cursor {
            seg.style
        } else {
            match_style(seg.style, h.current)
        },
        None => seg.style,
    }
}

/// The chunks from byte `cursor` of segment `k` on, with highlights from the `h`-th on still to
/// come. `None` where a piece would start or end inside a character.
pub open spec fn chunks_from(
    segments: Seq<SegmentModel>,
    highlights: Seq<Highlight>,
    k: int,
    cursor: int,
    h: int,
) -> Option<Seq<RenderChunkModel>>
    decreases segments.len() - k, segments[k].end - cursor, highlights.len() - h,
{
    if k < 0 || k >= segments.len() || h < 0 {
        Some(seq![])
    } else {
        let seg = segments[k];
        if cursor >= seg.end {
            if k + 1 < segments.len() {
                chunks_from(segments, highlights, k + 1, segments[k + 1].start, h)
            } else {
                Some(seq![])
            }
        } else if h < highlights.len() && highlights[h].end <= cursor {
            chunks_from(segments, highlights, k, cursor, h + 1)
        } else {
            let next = if h < highlights.len() {
                Some(highlights[h])
            } else {
                None
            };
            let end = piece_end(seg, cursor, next);
            let used = next is Some && (next->0).start <= cursor && end >= (next->0).end;
            match strings::byte_slice(seg.text, cursor - seg.start, end - seg.start) {
                Some(text) => match chunks_from(
                    segments,
                    highlights,
                    k,
                    end,
                    if used {
                        h + 1
                    } else {
                        h
                    },
                ) {
                    Some(rest) => Some(
                        seq![
                            RenderChunkModel {
                                text,
                                style: piece_style(seg, cursor, next),
                                hyperlink: seg.hyperlink,
                            },
                        ] + rest,
                    ),
                    None => None,
                },
                None => None,
            }
        }
    }
}

/// The chunks of a line.
pub open spec fn chunks_of(line: LineModel, highlights: Seq<Highlight>) -> Option<
    Seq<RenderChunkModel>,
> {
    if line.segments.len() == 0 {
        Some(seq![])
    } else {
        chunks_from(line.segments, highlights, 0, line.segments[0].start, 0)
    }
}

/// `done`, followed by what comes after it.
pub open spec fn chunks_after(
    done: Seq<RenderChunkModel>,
    rest: Option<Seq<RenderChunkModel>>,
) -> Option<Seq<RenderChunkModel>> {
    match rest {
        Some(r) => Some(done + r),
        None => None,
    }
}

impl ParsedLine {
    /// The chunks of a line, with the given highlights (sorted by their start); `None` where a
    /// highlight starts or ends inside a character.
    pub fn try_to_render_chunks(&self, highlights: &Vec<Highlight>) -> (r: Option<Vec<RenderChunk>>)
        ensures
            match r {
                Some(chunks) => chunks_of(self@, highlights@) == Some(
                    render_chunk_models(chunks@),
                ),
                None => chunks_of(self@, highlights@) is None,
            },
    {
        let mut chunks: Vec<RenderChunk> = Vec::new();
        let n: usize = self.segments.len();
        if n == 0 {
            assert(render_chunk_models(chunks@) =~= seq![]);
            return Some(chunks);
        }
        let ghost segs = self@.segments;
        let ghost hl = highlights@;
        let mut h: usize = 0;
        let mut k: usize = 0;
        let ghost whole = chunks_of(self@, highlights@);
        assert(whole == chunks_after(
            render_chunk_models(chunks@),
            chunks_from(segs, hl, 0, segs[0].start, 0),
        )) by {
            if let Some(w) = whole {
                assert(render_chunk_models(chunks@) + w =~= w);
            }
        }
        while k < n
            invariant
                n == self.segments@.len(),
                segs == self@.segments,
                hl == highlights@,
                k <= n,
                h <= hl.len(),
                whole == chunks_of(self@, highlights@),
                whole == chunks_after(
                    render_chunk_models(chunks@),
                    if k < n {
                        chunks_from(segs, hl, k as int, segs[k as int].start, h as int)
                    } else {
                        Some(seq![])
                    },
                ),
            decreases n - k,
        {
            let seg = &self.segments[k];
            assert(segs[k as int] == seg@);
            let mut cursor: usize = seg.start;
            while cursor < seg.end
                invariant
                    n == self.segments@.len(),
                    segs == self@.segments,
                    hl == highlights@,
                    k < n,
                    h <= hl.len(),
                    segs[k as int] == seg@,
                    seg.start <= cursor,
                    whole == chunks_of(self@, highlights@),
                    whole == chunks_after(
                        render_chunk_models(chunks@),
                        chunks_from(segs, hl, k as int, cursor as int, h as int),
                    ),
                decreases seg.end - cursor, hl.len() - h,
            {
                if h < highlights.len() && highlights[h].end <= cursor {
                    h += 1;
                    continue;
                }
                let ghost next = if h < hl.len() {
                    Some(hl[h as int])
                } else {
                    None
                };
                let (end, style, used): (usize, AnsiStyle, bool) = if h < highlights.len() {
                    let hi = highlights[h];
                    if hi.start > cursor {
                        (
                            if hi.start <= seg.end {
                                hi.start
                            } else {
                                seg.end
                            },
                            seg.style,
                            false,
                        )
                    } else {
                        let end: usize = if hi.end <= seg.end {
                            hi.end
                        } else {
                            seg.end
                        };
                        let style = if hi.current {
                            seg.style.with_highlight(Color::Black, Color::Yellow, true)
                        } else {
                            seg.style.with_highlight(Color::Black, Color::Cyan, false)
                        };
                        (end, style, end >= hi.end)
                    }
                } else {
                    (seg.end, seg.style, false)
                };
                assert(end == piece_end(seg@, cursor as int, next));
                assert(style == piece_style(seg@, cursor as int, next));
                let text = match slice_text(seg.text.as_str(), cursor - seg.start, end - seg.start) {
                    Some(t) => t,
                    None => {
                        assert(chunks_from(segs, hl, k as int, cursor as int, h as int) is None);
                        return None;
                    },
                };
                let ghost before = render_chunk_models(chunks@);
                let chunk = RenderChunk { text, style, hyperlink: copy_link(&seg.hyperlink) };
                chunks.push(chunk);
                assert(render_chunk_models(chunks@) =~= before + seq![chunk@]);
                proof {
                    let h2 = if used {
                        h + 1
                    } else {
                        h as int
                    };
                    if let Some(rest) = chunks_from(segs, hl, k as int, end as int, h2) {
                        assert(before + (seq![chunk@] + rest) =~= (before + seq![chunk@]) + rest);
                    }
                }
                if used {
                    h += 1;
                }
                cursor = end;
            }
            k += 1;
        }
        assert(render_chunk_models(chunks@) + seq![] =~= render_chunk_models(chunks@));
        Some(chunks)
    }

    /// The chunks of a line, with the given highlights (sorted by their start).
    pub fn to_render_chunks(&self, highlights: &Vec<Highlight>) -> (r: Vec<RenderChunk>)
        requires
            chunks_of(self@, highlights@) is Some,
        ensures
            chunks_of(self@, highlights@) == Some(render_chunk_models(r@)),
    {
        self.try_to_render_chunks(highlights).unwrap()
    }
}

// ---------------------------------------------------------------------------
// Laws
// ---------------------------------------------------------------------------

/// The texts of chunks, one after the other.
pub open spec fn chunks_text(chunks: Seq<RenderChunkModel>) -> Seq<char>
    decreases chunks.len(),
{
    if chunks.len() == 0 {
        seq![]
    } else {
        chunks[0].text + chunks_text(chunks.subrange(1, chunks.len() as int))
    }
}

/// The texts of the segments from the `k`-th on.
pub open spec fn text_from(segments: Seq<SegmentModel>, k: int) -> Seq<char>
    decreases segments.len() - k,
{
    if k < 0 || k >= segments.len() {
        seq![]
    } else {
        segments[k].text + text_from(segments, k + 1)
    }
}

proof fn lemma_text_from(segments: Seq<SegmentModel>, k: int)
    requires
        0 <= k <= segments.len(),
    ensures
        ansi::segments_text(segments.subrange(0, k)) + text_from(segments, k)
            == ansi::segments_text(segments),
    decreases segments.len() - k,
{
    let head = segments.subrange(0, k);
    if k < segments.len() {
        lemma_text_from(segments, k + 1);
        let more = segments.subrange(0, k + 1);
        assert(more.drop_last() =~= head);
        assert(more.last() == segments[k]);
        assert(ansi::segments_text(head) + (segments[k].text + text_from(segments, k + 1)) =~= (
        ansi::segments_text(head) + segments[k].text) + text_from(segments, k + 1));
    } else {
        assert(head =~= segments);
        assert(ansi::segments_text(segments) + Seq::<char>::empty() =~= ansi::segments_text(
            segments,
        ));
    }
}

/// Segments have the size that their byte ranges say.
spec fn sized(segments: Seq<SegmentModel>) -> bool {
    forall|k: int|
        0 <= k < segments.len() ==> (#[trigger] segments[k]).end == segments[k].start
            + strings::byte_len(segments[k].text)
}

/// The texts of the chunks from `cursor` on are the rest of the segment and all later segments.
proof fn lemma_chunk_texts(
    segments: Seq<SegmentModel>,
    hl: Seq<Highlight>,
    k: int,
    cursor: int,
    h: int,
)
    requires
        0 <= k < segments.len(),
        0 <= h,
        sized(segments),
        segments[k].start <= cursor <= segments[k].end,
        strings::byte_slice(
            segments[k].text,
            cursor - segments[k].start,
            strings::byte_len(segments[k].text),
        ) is Some,
        chunks_from(segments, hl, k, cursor, h) is Some,
    ensures
        chunks_text(chunks_from(segments, hl, k, cursor, h)->0) == (strings::byte_slice(
            segments[k].text,
            cursor - segments[k].start,
            strings::byte_len(segments[k].text),
        )->0) + text_from(segments, k + 1),
    decreases segments.len() - k, segments[k].end - cursor, hl.len() - h,
{
    let seg = segments[k];
    let size = strings::byte_len(seg.text);
    let rest_of_seg = strings::byte_slice(seg.text, cursor - seg.start, size)->0;
    if cursor >= seg.end {
        vstd::utf8::encode_utf8_valid_utf8(seg.text);
        assert(rest_of_seg =~= seq![]) by {
            let e = vstd::utf8::encode_utf8(seg.text);
            assert(e.subrange(size, size) =~= seq![]);
        }
        if k + 1 < segments.len() {
            let s2 = segments[k + 1];
            strings::lemma_slice_all(s2.text);
            assert(s2.end == s2.start + strings::byte_len(s2.text));
            lemma_chunk_texts(segments, hl, k + 1, s2.start, h);
            assert(rest_of_seg + text_from(segments, k + 1) =~= text_from(segments, k + 1));
        } else {
            assert(rest_of_seg + text_from(segments, k + 1) =~= seq![]);
        }
    } else if h < hl.len() && hl[h].end <= cursor {
        lemma_chunk_texts(segments, hl, k, cursor, h + 1);
    } else {
        let next = if h < hl.len() {
            Some(hl[h])
        } else {
            None
        };
        let end = piece_end(seg, cursor, next);
        let used = next is Some && (next->0).start <= cursor && end >= (next->0).end;
        let h2 = if used {
            h + 1
        } else {
            h
        };
        let (a, b) = (cursor - seg.start, end - seg.start);
        assert(seg.end == seg.start + size);
        let piece = strings::byte_slice(seg.text, a, b)->0;
        assert(strings::byte_slice(seg.text, b, size) is Some);
        strings::lemma_slices_join(seg.text, a, b, size);
        lemma_chunk_texts(segments, hl, k, end, h2);
        let all = chunks_from(segments, hl, k, cursor, h)->0;
        let rest = chunks_from(segments, hl, k, end, h2)->0;
        assert(all.subrange(1, all.len() as int) =~= rest);
        assert(all[0].text == piece);
        let tail = strings::byte_slice(seg.text, b, size)->0;
        assert(piece + (tail + text_from(segments, k + 1)) =~= (piece + tail) + text_from(
            segments,
            k + 1,
        ));
    }
}

/// Highlighting neither adds nor drops nor reorders text: the texts of the chunks of a line, one
/// after the other, are its plain text.
pub proof fn law_chunks_keep_text(line: LineModel, highlights: Seq<Highlight>)
    requires
        line.partitioned(),
        chunks_of(line, highlights) is Some,
    ensures
        chunks_text(chunks_of(line, highlights)->0) == line.plain,
{
    let segs = line.segments;
    if segs.len() > 0 {
        assert(sized(segs));
        strings::lemma_slice_all(segs[0].text);
        assert(segs[0].end == segs[0].start + strings::byte_len(segs[0].text));
        assert(strings::byte_len(segs[0].text) >= 0);
        lemma_chunk_texts(segs, highlights, 0, segs[0].start, 0);
        lemma_text_from(segs, 0);
        assert(segs.subrange(0, 0) =~= seq![]);
        assert(ansi::segments_text(segs.subrange(0, 0)) + text_from(segs, 0) =~= text_from(
            segs,
            0,
        ));
    }
}

/// Every bound of a highlight within the text lies on a character boundary.
pub open spec fn bounds_between_characters(line: LineModel, highlights: Seq<Highlight>) -> bool {
    let b = vstd::utf8::encode_utf8(line.plain);
    forall|i: int|
        0 <= i < highlights.len() ==> {
            let h = #[trigger] highlights[i];
            &&& h.start <= b.len() ==> vstd::utf8::is_char_boundary(b, h.start as int)
            &&& h.end <= b.len() ==> vstd::utf8::is_char_boundary(b, h.end as int)
        }
}

/// No text is empty.
pub open spec fn no_empty_text(chunks: Seq<RenderChunkModel>) -> bool {
    forall|i: int| 0 <= i < chunks.len() ==> (#[trigger] chunks[i]).text.len() > 0
}

proof fn lemma_middle(h: Seq<u8>, s: Seq<u8>, r: Seq<u8>)
    ensures
        (h + (s + r)).subrange(h.len() as int, (h.len() + s.len()) as int) == s,
{
    assert((h + (s + r)).subrange(h.len() as int, (h.len() + s.len()) as int) =~= s);
}

/// The bytes of a segment stand at its place in the plain text.
pub proof fn lemma_segment_bytes(line: LineModel, k: int)
    requires
        line.partitioned(),
        0 <= k < line.segments.len(),
    ensures
        ({
            let seg = line.segments[k];
            let b = vstd::utf8::encode_utf8(line.plain);
            &&& 0 <= seg.start < seg.end <= b.len()
            &&& seg.end - seg.start == strings::byte_len(seg.text)
            &&& b.subrange(seg.start, seg.end) == vstd::utf8::encode_utf8(seg.text)
        }),
{
    let segs = line.segments;
    let seg = segs[k];
    let head = ansi::segments_text(segs.subrange(0, k));
    let rest = text_from(segs, k + 1);
    lemma_text_from(segs, k);
    strings::lemma_byte_len(seg.text);
    strings::lemma_encode_concat(seg.text, rest);
    strings::lemma_encode_concat(head, seg.text + rest);
    lemma_middle(
        vstd::utf8::encode_utf8(head),
        vstd::utf8::encode_utf8(seg.text),
        vstd::utf8::encode_utf8(rest),
    );
    assert(line.plain == head + (seg.text + rest));
}

/// A segment ends where the next one starts.
pub proof fn lemma_segments_meet(line: LineModel, k: int)
    requires
        line.partitioned(),
        0 <= k,
        k + 1 < line.segments.len(),
    ensures
        line.segments[k].end == line.segments[k + 1].start,
{
    let segs = line.segments;
    let more = segs.subrange(0, k + 1);
    let head = ansi::segments_text(segs.subrange(0, k));
    assert(more.drop_last() =~= segs.subrange(0, k));
    assert(more.last() == segs[k]);
    assert(ansi::segments_text(more) == head + segs[k].text);
    strings::lemma_encode_concat(head, segs[k].text);
    assert(segs[k + 1].start == strings::byte_len(ansi::segments_text(more)));
}

/// Segments come in the order of their places.
pub proof fn lemma_segments_order(line: LineModel, k: int, s: int)
    requires
        line.partitioned(),
        0 <= k <= s < line.segments.len(),
    ensures
        line.segments[k].start <= line.segments[s].start,
        k < s ==> line.segments[k].end <= line.segments[s].start,
    decreases s - k,
{
    if k < s {
        lemma_segment_bytes(line, k);
        lemma_segments_meet(line, k);
        lemma_segments_order(line, k + 1, s);
    }
}

/// A boundary of the plain text inside a segment is a boundary of the segment.
proof fn lemma_segment_boundary(line: LineModel, k: int, x: int)
    requires
        line.partitioned(),
        0 <= k < line.segments.len(),
        line.segments[k].start <= x <= line.segments[k].end,
        x < line.segments[k].end ==> vstd::utf8::is_char_boundary(
            vstd::utf8::encode_utf8(line.plain),
            x,
        ),
    ensures
        vstd::utf8::is_char_boundary(
            vstd::utf8::encode_utf8(line.segments[k].text),
            x - line.segments[k].start,
        ),
{
    lemma_segment_bytes(line, k);
    let seg = line.segments[k];
    let b = vstd::utf8::encode_utf8(line.plain);
    let t = vstd::utf8::encode_utf8(seg.text);
    vstd::utf8::encode_utf8_valid_utf8(line.plain);
    vstd::utf8::encode_utf8_valid_utf8(seg.text);
    if x < seg.end {
        vstd::utf8::is_char_boundary_iff_not_is_continuation_byte(b, x);
        assert(t[x - seg.start] == b[x]);
        vstd::utf8::is_char_boundary_iff_not_is_continuation_byte(t, x - seg.start);
    } else {
        vstd::utf8::is_char_boundary_start_end_of_seq(t);
    }
}

/// Text between two different boundaries is not empty.
proof fn lemma_slice_not_empty(s: Seq<char>, from: int, to: int)
    requires
        from < to,
        strings::byte_slice(s, from, to) is Some,
    ensures
        (strings::byte_slice(s, from, to)->0).len() > 0,
{
    let b = vstd::utf8::encode_utf8(s);
    vstd::utf8::encode_utf8_valid_utf8(s);
    strings::lemma_boundary_behind(b, from, to);
    let part = b.subrange(from, to);
    vstd::utf8::decode_utf8_encode_utf8(part);
    strings::lemma_byte_len(vstd::utf8::decode_utf8(part));
}

proof fn lemma_chunks_exist(line: LineModel, hl: Seq<Highlight>, k: int, cursor: int, h: int)
    requires
        line.partitioned(),
        bounds_between_characters(line, hl),
        0 <= k < line.segments.len(),
        0 <= h,
        line.segments[k].start <= cursor <= line.segments[k].end,
        vstd::utf8::is_char_boundary(
            vstd::utf8::encode_utf8(line.segments[k].text),
            cursor - line.segments[k].start,
        ),
    ensures
        chunks_from(line.segments, hl, k, cursor, h) matches Some(chunks) && no_empty_text(chunks),
    decreases line.segments.len() - k, line.segments[k].end - cursor, hl.len() - h,
{
    let segs = line.segments;
    let seg = segs[k];
    lemma_segment_bytes(line, k);
    if cursor >= seg.end {
        if k + 1 < segs.len() {
            lemma_segment_bytes(line, k + 1);
            vstd::utf8::encode_utf8_valid_utf8(segs[k + 1].text);
            lemma_chunks_exist(line, hl, k + 1, segs[k + 1].start, h);
        }
    } else if h < hl.len() && hl[h].end <= cursor {
        lemma_chunks_exist(line, hl, k, cursor, h + 1);
    } else {
        let next = if h < hl.len() {
            Some(hl[h])
        } else {
            None
        };
        let end = piece_end(seg, cursor, next);
        let used = next is Some && (next->0).start <= cursor && end >= (next->0).end;
        let h2 = if used {
            h + 1
        } else {
            h
        };
        assert(cursor < end <= seg.end);
        lemma_segment_boundary(line, k, end);
        lemma_slice_not_empty(seg.text, cursor - seg.start, end - seg.start);
        lemma_chunks_exist(line, hl, k, end, h2);
        let all = chunks_from(segs, hl, k, cursor, h)->0;
        let rest = chunks_from(segs, hl, k, end, h2)->0;
        assert forall|i: int| 0 <= i < all.len() implies (#[trigger] all[i]).text.len() > 0 by {
            if i > 0 {
                assert(all[i] == rest[i - 1]);
            }
        }
    }
}

/// Where every bound of a highlight within the text lies on a character boundary, a line can be
/// cut into chunks, none of them is empty, and together they are the plain text; highlights may
/// overlap.
pub proof fn law_highlights_between_characters(line: LineModel, highlights: Seq<Highlight>)
    requires
        line.partitioned(),
        bounds_between_characters(line, highlights),
    ensures
        chunks_of(line, highlights) matches Some(chunks) && no_empty_text(chunks) && chunks_text(
            chunks,
        ) == line.plain,
{
    if line.segments.len() > 0 {
        lemma_segment_bytes(line, 0);
        vstd::utf8::encode_utf8_valid_utf8(line.segments[0].text);
        lemma_chunks_exist(line, highlights, 0, line.segments[0].start, 0);
    }
    law_chunks_keep_text(line, highlights);
}

/// A segment as one chunk.
pub open spec fn whole_segment(seg: SegmentModel) -> RenderChunkModel {
    RenderChunkModel { text: seg.text, style: seg.style, hyperlink: seg.hyperlink }
}

/// The segments from the `k`-th on, each as one chunk.
pub open spec fn whole_segments(segments: Seq<SegmentModel>, k: int) -> Seq<RenderChunkModel>
    decreases segments.len() - k,
{
    if k < 0 || k >= segments.len() {
        seq![]
    } else {
        seq![whole_segment(segments[k])] + whole_segments(segments, k + 1)
    }
}

/// Without highlights every segment is one chunk with the style of the segment, so nothing can
/// fall inside a character.
pub proof fn law_no_highlights(line: LineModel)
    requires
        line.partitioned(),
    ensures
        chunks_of(line, seq![]) == Some(whole_segments(line.segments, 0)),
{
    if line.segments.len() > 0 {
        lemma_no_highlights(line.segments, 0);
    }
}

proof fn lemma_no_highlights(segs: Seq<SegmentModel>, k: int)
    requires
        ansi::contiguous(segs),
        0 <= k < segs.len(),
    ensures
        chunks_from(segs, seq![], k, segs[k].start, 0) == Some(whole_segments(segs, k)),
    decreases segs.len() - k,
{
    let none = Seq::<Highlight>::empty();
    let seg = segs[k];
    strings::lemma_slice_all(seg.text);
    strings::lemma_byte_len(seg.text);
    assert(seg.end == seg.start + strings::byte_len(seg.text));
    assert(seg.start < seg.end);
    let after = chunks_from(segs, none, k, seg.end, 0);
    if k + 1 < segs.len() {
        lemma_no_highlights(segs, k + 1);
    }
    assert(after == Some(whole_segments(segs, k + 1)));
    assert(piece_end(seg, seg.start, None) == seg.end);
    assert(strings::byte_slice(seg.text, seg.start - seg.start, seg.end - seg.start) == Some(
        seg.text,
    ));
}

} // verus!
