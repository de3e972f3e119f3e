//! Collecting the hyperlinks of a document, with the places on the screen that they cover.
use vstd::prelude::*;
use vstd::string::*;
use crate::ansi;
use crate::ansi::{HyperlinkModel, LineModel, ParsedHyperlink, ParsedLine, SegmentModel};
use crate::strings;
use crate::strings::{columns_of, same_text, to_chars};

verus! {

/// A run of characters of one line that belongs to a link: its character range and its column
/// range.
#[derive(Clone, Copy, Debug, PartialEq, Eq, Structural)]
pub struct LinkSpan {
    pub line_idx: usize,
    pub start_char: usize,
    pub end_char: usize,
    pub start_col: usize,
    pub end_col: usize,
}

/// A link and the spans that it covers.
pub struct LinkInfo {
    pub id: Option<String>,
    pub url: String,
    pub spans: Vec<LinkSpan>,
}

#[verifier::ext_equal]
pub struct LinkModel {
    pub id: Option<Seq<char>>,
    pub url: Seq<char>,
    pub spans: Seq<LinkSpan>,
}

impl View for LinkInfo {
    type V = LinkModel;

    open spec fn view(&self) -> LinkModel {
        LinkModel { id: ansi::opt_text(self.id), url: self.url@, spans: self.spans@ }
    }
}

pub open spec fn link_models(v: Seq<LinkInfo>) -> Seq<LinkModel> {
    Seq::new(v.len(), |i: int| v[i]@)
}

/// A span covers at least one column and one character.
pub open spec fn sound_span(s: LinkSpan) -> bool {
    s.start_col < s.end_col && s.start_char < s.end_char
}

impl LinkModel {
    /// A link has at least one span, and its spans are sound.
    pub open spec fn wf(self) -> bool {
        &&& self.spans.len() > 0
        &&& forall|i: int| 0 <= i < self.spans.len() ==> sound_span(#[trigger] self.spans[i])
    }
}

pub open spec fn links_wf(links: Seq<LinkModel>) -> bool {
    forall|i: int| 0 <= i < links.len() ==> (#[trigger] links[i]).wf()
}

/// Whether a span covers a column of a line; it always covers the column that it starts on.
pub open spec fn covers_column(s: LinkSpan, line_idx: int, column: int) -> bool {
    s.line_idx == line_idx && s.start_col <= column && (column < s.end_col || column
        == s.start_col)
}

/// Whether a link covers a column of a line.
pub open spec fn link_covers(l: LinkModel, line_idx: int, column: int) -> bool {
    exists|i: int|
        0 <= i < l.spans.len() && covers_column(#[trigger] l.spans[i], line_idx, column)
}

/// Whether a span and a range of characters of a line overlap.
pub open spec fn overlaps_chars(s: LinkSpan, line_idx: int, start: int, end: int) -> bool {
    s.line_idx == line_idx && s.start_char < end && s.end_char > start
}

/// Whether a link and a range of characters of a line overlap.
pub open spec fn link_overlaps(l: LinkModel, line_idx: int, start: int, end: int) -> bool {
    exists|i: int|
        0 <= i < l.spans.len() && overlaps_chars(#[trigger] l.spans[i], line_idx, start, end)
}

/// Whether a link has a span on one of the lines from `start_line` up to (not including)
/// `end_line`.
pub open spec fn link_visible(l: LinkModel, start_line: int, end_line: int) -> bool {
    exists|i: int|
        0 <= i < l.spans.len() && start_line <= (#[trigger] l.spans[i]).line_idx < end_line
}

impl LinkInfo {
    pub fn primary_span(&self) -> (r: LinkSpan)
        requires
            self@.spans.len() > 0,
        ensures
            r == self@.spans[0],
    {
        self.spans[0]
    }

    pub fn line_idx(&self) -> (r: usize)
        requires
            self@.spans.len() > 0,
        ensures
            r == self@.spans[0].line_idx,
    {
        self.primary_span().line_idx
    }

    pub fn start_char(&self) -> (r: usize)
        requires
            self@.spans.len() > 0,
        ensures
            r == self@.spans[0].start_char,
    {
        self.primary_span().start_char
    }

    /// Whether the link covers a column of a line.
    pub fn contains_column(&self, line_idx: usize, column: usize) -> (r: bool)
        ensures
            r == link_covers(self@, line_idx as int, column as int),
    {
        let mut i: usize = 0;
        while i < self.spans.len()
            invariant
                i <= self.spans@.len(),
                forall|j: int|
                    0 <= j < i ==> !covers_column(
                        #[trigger] self.spans@[j],
                        line_idx as int,
                        column as int,
                    ),
            decreases self.spans.len() - i,
        {
            let s = self.spans[i];
            if s.line_idx == line_idx && column >= s.start_col && (column < s.end_col || column
                == s.start_col) {
                assert(covers_column(self@.spans[i as int], line_idx as int, column as int));
                return true;
            }
            i += 1;
        }
        false
    }

    /// Whether the link and a range of characters of a line overlap.
    pub fn intersects_chars(&self, line_idx: usize, start: usize, end: usize) -> (r: bool)
        ensures
            r == link_overlaps(self@, line_idx as int, start as int, end as int),
    {
        let mut i: usize = 0;
        while i < self.spans.len()
            invariant
                i <= self.spans@.len(),
                forall|j: int|
                    0 <= j < i ==> !overlaps_chars(
                        #[trigger] self.spans@[j],
                        line_idx as int,
                        start as int,
                        end as int,
                    ),
            decreases self.spans.len() - i,
        {
            let s = self.spans[i];
            if s.line_idx == line_idx && s.start_char < end && s.end_char > start {
                assert(overlaps_chars(
                    self@.spans[i as int],
                    line_idx as int,
                    start as int,
                    end as int,
                ));
                return true;
            }
            i += 1;
        }
        false
    }

    /// Whether the link has a span on one of the lines from `start_line` up to `end_line`.
    pub fn visible_in_range(&self, start_line: usize, end_line: usize) -> (r: bool)
        ensures
            r == link_visible(self@, start_line as int, end_line as int),
    {
        let mut i: usize = 0;
        while i < self.spans.len()
            invariant
                i <= self.spans@.len(),
                forall|j: int|
                    0 <= j < i ==> !(start_line <= (#[trigger] self.spans@[j]).line_idx
                        < end_line),
            decreases self.spans.len() - i,
        {
            let s = self.spans[i];
            if s.line_idx >= start_line && s.line_idx < end_line {
                assert(self@.spans[i as int].line_idx == s.line_idx);
                return true;
            }
            i += 1;
        }
        false
    }
}

// ---------------------------------------------------------------------------
// Collecting
// ---------------------------------------------------------------------------

/// The spans of a link with one more character: the last span grows if the character follows it
/// directly, else a new span starts. A character without width counts as one column wide where it
/// starts a span.
pub open spec fn span_extended(
    spans: Seq<LinkSpan>,
    line_idx: int,
    char_idx: int,
    col: int,
    width: int,
) -> Seq<LinkSpan> {
    if spans.len() > 0 && spans.last().line_idx == line_idx && spans.last().end_char == char_idx {
        let s = spans.last();
        spans.drop_last().push(
            LinkSpan {
                end_char: (char_idx + 1) as usize,
                end_col: if width > 0 {
                    (col + width) as usize
                } else if s.end_col == s.start_col {
                    (s.start_col + 1) as usize
                } else {
                    s.end_col
                },
                ..s
            },
        )
    } else {
        spans.push(
            LinkSpan {
                line_idx: line_idx as usize,
                start_char: char_idx as usize,
                end_char: (char_idx + 1) as usize,
                start_col: col as usize,
                end_col: (if width > 0 {
                    col + width
                } else {
                    col + 1
                }) as usize,
            },
        )
    }
}

/// The first link at or after `i` that has the given identifier.
pub open spec fn link_with_id(links: Seq<LinkModel>, id: Seq<char>, i: int) -> Option<int>
    decreases links.len() - i,
{
    if i < 0 || i >= links.len() {
        None
    } else if links[i].id == Some(id) {
        Some(i)
    } else {
        link_with_id(links, id, i + 1)
    }
}

/// The links after a character of a hyperlink: the character goes to the link with the same
/// identifier, if there is one; else it starts a new link.
pub open spec fn char_collected(
    links: Seq<LinkModel>,
    h: HyperlinkModel,
    line_idx: int,
    char_idx: int,
    col: int,
    width: int,
) -> Seq<LinkModel> {
    let fresh = links.push(
        LinkModel {
            id: h.id,
            url: h.url,
            spans: span_extended(seq![], line_idx, char_idx, col, width),
        },
    );
    match h.id {
        None => fresh,
        Some(id) => match link_with_id(links, id, 0) {
            None => fresh,
            Some(k) => links.update(
                k,
                LinkModel {
                    spans: span_extended(links[k].spans, line_idx, char_idx, col, width),
                    ..links[k]
                },
            ),
        },
    }
}

/// Links found so far, and the next character's index and column on its line.
#[verifier::ext_equal]
pub struct LinkWalk {
    pub links: Seq<LinkModel>,
    pub char_idx: int,
    pub col: int,
}

/// The walk after one character.
pub open spec fn char_walked(
    w: LinkWalk,
    link: Option<HyperlinkModel>,
    c: char,
    line_idx: int,
) -> LinkWalk {
    LinkWalk {
        links: match link {
            Some(h) => char_collected(w.links, h, line_idx, w.char_idx, w.col, strings::columns(c)),
            None => w.links,
        },
        char_idx: w.char_idx + 1,
        col: w.col + strings::columns(c),
    }
}

/// The walk after the characters of a segment from the `j`-th on.
pub open spec fn segment_walked(w: LinkWalk, seg: SegmentModel, line_idx: int, j: int) -> LinkWalk
    decreases seg.text.len() - j,
{
    if j < 0 || j >= seg.text.len() {
        w
    } else {
        segment_walked(
            char_walked(w, seg.hyperlink, seg.text[j], line_idx),
            seg,
            line_idx,
            j + 1,
        )
    }
}

/// The walk after the segments of a line from the `k`-th on.
pub open spec fn line_walked(w: LinkWalk, segs: Seq<SegmentModel>, line_idx: int, k: int) -> LinkWalk
    decreases segs.len() - k,
{
    if k < 0 || k >= segs.len() {
        w
    } else {
        line_walked(segment_walked(w, segs[k], line_idx, 0), segs, line_idx, k + 1)
    }
}

/// The links after the lines from the `k`-th on.
pub open spec fn links_from(links: Seq<LinkModel>, lines: Seq<LineModel>, k: int) -> Seq<LinkModel>
    decreases lines.len() - k,
{
    if k < 0 || k >= lines.len() {
        links
    } else {
        links_from(
            line_walked(LinkWalk { links, char_idx: 0, col: 0 }, lines[k].segments, k, 0).links,
            lines,
            k + 1,
        )
    }
}

/// The links of a document.
pub open spec fn links_of(lines: Seq<LineModel>) -> Seq<LinkModel> {
    links_from(seq![], lines, 0)
}

/// The columns of a line can be counted.
pub open spec fn line_fits(line: LineModel) -> bool {
    3 * ansi::segments_text(line.segments).len() + 1 <= usize::MAX
}

/// The columns of all lines can be counted.
pub open spec fn content_fits(lines: Seq<LineModel>) -> bool {
    forall|i: int| 0 <= i < lines.len() ==> line_fits(#[trigger] lines[i])
}

/// What a walk keeps: all spans are sound and lie on lines up to the current one, and spans of the
/// current line start no later than the current column.
pub open spec fn walk_ok(w: LinkWalk, line_idx: int) -> bool {
    &&& 0 <= w.char_idx
    &&& 0 <= w.col <= 3 * w.char_idx
    &&& links_wf(w.links)
    &&& forall|i: int, j: int|
        0 <= i < w.links.len() && 0 <= j < w.links[i].spans.len() ==> {
            let s = #[trigger] w.links[i].spans[j];
            &&& s.line_idx <= line_idx
            &&& s.line_idx == line_idx ==> s.start_col <= w.col && s.start_char < w.char_idx
        }
}

proof fn lemma_link_with_id(links: Seq<LinkModel>, id: Seq<char>, i: int)
    requires
        0 <= i,
    ensures
        match link_with_id(links, id, i) {
            Some(k) => i <= k < links.len() && links[k].id == Some(id),
            None => true,
        },
    decreases links.len() - i,
{
    if i < links.len() {
        lemma_link_with_id(links, id, i + 1);
    }
}

/// One more character keeps what a walk keeps, as long as its column can be counted.
proof fn lemma_char_walked(w: LinkWalk, link: Option<HyperlinkModel>, c: char, line_idx: int)
    requires
        walk_ok(w, line_idx),
        0 <= line_idx <= usize::MAX,
        0 <= strings::columns(c) <= 3,
        3 * w.char_idx + 4 <= usize::MAX,
    ensures
        walk_ok(char_walked(w, link, c, line_idx), line_idx),
{
    let n = char_walked(w, link, c, line_idx);
    let width = strings::columns(c);
    if let Some(h) = link {
        let grown = match h.id {
            None => None,
            Some(id) => link_with_id(w.links, id, 0),
        };
        if h.id is Some {
            lemma_link_with_id(w.links, h.id->0, 0);
        }
        let old_spans = match grown {
            Some(k) => w.links[k].spans,
            None => seq![],
        };
        let spans = span_extended(old_spans, line_idx, w.char_idx, w.col, width);
        let at = match grown {
            Some(k) => k,
            None => w.links.len() as int,
        };
        assert(n.links[at].spans == spans);
        assert forall|j: int| 0 <= j < spans.len() implies {
            let s = #[trigger] spans[j];
            &&& sound_span(s)
            &&& s.line_idx <= line_idx
            &&& s.line_idx == line_idx ==> s.start_col <= n.col && s.start_char < n.char_idx
        } by {
            if j < old_spans.len() {
                assert(grown is Some);
                let k = grown->0;
                let o = w.links[k].spans[j];
                assert(w.links[k].wf());
                assert(sound_span(o));
                if j < old_spans.len() - 1 || !(old_spans.last().line_idx == line_idx
                    && old_spans.last().end_char == w.char_idx) {
                    assert(spans[j] == o);
                }
            }
        }
        assert(spans.len() > 0);
        assert forall|i: int| 0 <= i < n.links.len() implies (#[trigger] n.links[i]).wf() by {
            if i != at {
                assert(n.links[i] == w.links[i]);
            }
        }
        assert forall|i: int, j: int|
            0 <= i < n.links.len() && 0 <= j < n.links[i].spans.len() implies {
            let s = #[trigger] n.links[i].spans[j];
            &&& s.line_idx <= line_idx
            &&& s.line_idx == line_idx ==> s.start_col <= n.col && s.start_char < n.char_idx
        } by {
            if i != at {
                assert(n.links[i] == w.links[i]);
                let s = w.links[i].spans[j];
            } else {
                let s = spans[j];
            }
        }
    } else {
        assert forall|i: int, j: int|
            0 <= i < n.links.len() && 0 <= j < n.links[i].spans.len() implies {
            let s = #[trigger] n.links[i].spans[j];
            &&& s.line_idx <= line_idx
            &&& s.line_idx == line_idx ==> s.start_col <= n.col && s.start_char < n.char_idx
        } by {
            let s = w.links[i].spans[j];
        }
    }
}

/// The first link with the given identifier.
fn find_link(links: &Vec<LinkInfo>, id: &String) -> (r: Option<usize>)
    ensures
        match r {
            Some(k) => link_with_id(link_models(links@), id@, 0) == Some(k as int) && k
                < links@.len(),
            None => link_with_id(link_models(links@), id@, 0) is None,
        },
{
    let ghost all = link_models(links@);
    let mut i: usize = 0;
    while i < links.len()
        invariant
            i <= links@.len(),
            all == link_models(links@),
            link_with_id(all, id@, 0) == link_with_id(all, id@, i as int),
        decreases links.len() - i,
    {
        assert(all[i as int] == links@[i as int]@);
        match &links[i].id {
            Some(other) => {
                if same_text(other, id) {
                    return Some(i);
                }
            },
            None => {},
        }
        i += 1;
    }
    None
}

/// Adds a character to a link.
pub fn add_char_to_link(
    link: &mut LinkInfo,
    line_idx: usize,
    char_index: usize,
    col_index: usize,
    width: usize,
)
    requires
        char_index < usize::MAX,
        col_index + width <= usize::MAX,
        col_index < usize::MAX,
        old(link)@.spans.len() > 0 ==> old(link)@.spans.last().start_col < usize::MAX,
    ensures
        final(link)@ == (LinkModel {
            spans: span_extended(
                old(link)@.spans,
                line_idx as int,
                char_index as int,
                col_index as int,
                width as int,
            ),
            ..old(link)@
        }),
{
    let n: usize = link.spans.len();
    if n > 0 {
        let last = link.spans[n - 1];
        if last.line_idx == line_idx && last.end_char == char_index {
            let grown = LinkSpan {
                end_char: char_index + 1,
                end_col: if width > 0 {
                    col_index + width
                } else if last.end_col == last.start_col {
                    last.start_col + 1
                } else {
                    last.end_col
                },
                ..last
            };
            link.spans.set(n - 1, grown);
            assert(link.spans@ =~= old(link).spans@.drop_last().push(grown));
            return;
        }
    }
    let end_col: usize = if width > 0 {
        col_index + width
    } else {
        col_index + 1
    };
    link.spans.push(
        LinkSpan {
            line_idx,
            start_char: char_index,
            end_char: char_index + 1,
            start_col: col_index,
            end_col,
        },
    );
}

/// Adds a character of a hyperlink to the links.
fn collect_char(
    links: &mut Vec<LinkInfo>,
    h: &ParsedHyperlink,
    line_idx: usize,
    char_index: usize,
    col_index: usize,
    width: usize,
)
    requires
        char_index < usize::MAX,
        col_index + width <= usize::MAX,
        col_index < usize::MAX,
        links_wf(link_models(old(links)@)),
    ensures
        link_models(final(links)@) == char_collected(
            link_models(old(links)@),
            h@,
            line_idx as int,
            char_index as int,
            col_index as int,
            width as int,
        ),
{
    let ghost before = link_models(old(links)@);
    let found: Option<usize> = match &h.id {
        Some(id) => find_link(links, id),
        None => None,
    };
    match found {
        Some(k) => {
            assert(before[k as int].wf() && before[k as int] == links@[k as int]@);
            add_char_to_link(&mut links[k], line_idx, char_index, col_index, width);
            assert(link_models(links@) =~= before.update(
                k as int,
                LinkModel {
                    spans: span_extended(
                        before[k as int].spans,
                        line_idx as int,
                        char_index as int,
                        col_index as int,
                        width as int,
                    ),
                    ..before[k as int]
                },
            ));
        },
        None => {
            let mut link = LinkInfo {
                id: match &h.id {
                    Some(id) => Some(id.clone()),
                    None => None,
                },
                url: h.url.clone(),
                spans: Vec::new(),
            };
            let ghost empty = link@;
            assert(empty.spans =~= seq![]);
            add_char_to_link(&mut link, line_idx, char_index, col_index, width);
            links.push(link);
            assert(link_models(links@) =~= before.push(link@));
        },
    }
}

/// Walks over the characters of a segment.
fn walk_segment(
    links: &mut Vec<LinkInfo>,
    segment: &ansi::ParsedLineSegment,
    line_idx: usize,
    char_index: usize,
    col_index: usize,
) -> (r: (usize, usize))
    requires
        walk_ok(
            LinkWalk {
                links: link_models(old(links)@),
                char_idx: char_index as int,
                col: col_index as int,
            },
            line_idx as int,
        ),
        3 * (char_index + segment@.text.len()) + 1 <= usize::MAX,
    ensures
        ({
            let w = segment_walked(
                LinkWalk {
                    links: link_models(old(links)@),
                    char_idx: char_index as int,
                    col: col_index as int,
                },
                segment@,
                line_idx as int,
                0,
            );
            &&& link_models(final(links)@) == w.links
            &&& r.0 == w.char_idx
            &&& r.1 == w.col
            &&& walk_ok(w, line_idx as int)
            &&& w.char_idx == char_index + segment@.text.len()
        }),
{
    let text = to_chars(segment.text.as_str());
    let n: usize = text.len();
    let ghost start = LinkWalk {
        links: link_models(old(links)@),
        char_idx: char_index as int,
        col: col_index as int,
    };
    let mut ch: usize = char_index;
    let mut col: usize = col_index;
    let mut j: usize = 0;
    while j < n
        invariant
            n == text@.len(),
            text@ == segment@.text,
            j <= n,
            ch == char_index + j,
            3 * (char_index + n) + 1 <= usize::MAX,
            walk_ok(
                LinkWalk { links: link_models(links@), char_idx: ch as int, col: col as int },
                line_idx as int,
            ),
            segment_walked(start, segment@, line_idx as int, 0) == segment_walked(
                LinkWalk { links: link_models(links@), char_idx: ch as int, col: col as int },
                segment@,
                line_idx as int,
                j as int,
            ),
        decreases n - j,
    {
        let c = text[j];
        let width = columns_of(c);
        let ghost w = LinkWalk { links: link_models(links@), char_idx: ch as int, col: col as int };
        proof {
            lemma_char_walked(w, segment@.hyperlink, c, line_idx as int);
        }
        match &segment.hyperlink {
            Some(h) => {
                collect_char(links, h, line_idx, ch, col, width);
            },
            None => {},
        }
        col += width;
        ch += 1;
        assert(LinkWalk { links: link_models(links@), char_idx: ch as int, col: col as int }
            == char_walked(w, segment@.hyperlink, c, line_idx as int));
        j += 1;
    }
    (ch, col)
}

/// The texts of the first segments have no more characters than the whole line.
proof fn lemma_prefix_len(segs: Seq<SegmentModel>, k: int)
    requires
        0 <= k <= segs.len(),
    ensures
        ansi::segments_text(segs.subrange(0, k)).len() <= ansi::segments_text(segs).len(),
        k < segs.len() ==> ansi::segments_text(segs.subrange(0, k + 1)).len()
            == ansi::segments_text(segs.subrange(0, k)).len() + segs[k].text.len(),
    decreases segs.len() - k,
{
    if k < segs.len() {
        lemma_prefix_len(segs, k + 1);
        let more = segs.subrange(0, k + 1);
        assert(more.drop_last() =~= segs.subrange(0, k));
        assert(more.last() == segs[k]);
    } else {
        assert(segs.subrange(0, k) =~= segs);
    }
}

/// Walks over the segments of a line.
fn walk_line(links: &mut Vec<LinkInfo>, line: &ParsedLine, line_idx: usize)
    requires
        walk_ok(
            LinkWalk { links: link_models(old(links)@), char_idx: 0, col: 0 },
            line_idx as int,
        ),
        line_fits(line@),
    ensures
        ({
            let w = line_walked(
                LinkWalk { links: link_models(old(links)@), char_idx: 0, col: 0 },
                line@.segments,
                line_idx as int,
                0,
            );
            &&& link_models(final(links)@) == w.links
            &&& walk_ok(w, line_idx as int)
        }),
{
    let ghost segs = line@.segments;
    let ghost start = LinkWalk { links: link_models(old(links)@), char_idx: 0, col: 0 };
    let n: usize = line.segments.len();
    let mut ch: usize = 0;
    let mut col: usize = 0;
    let mut k: usize = 0;
    assert(segs.subrange(0, 0) =~= seq![]);
    while k < n
        invariant
            n == line.segments@.len(),
            segs == line@.segments,
            line_fits(line@),
            k <= n,
            ch == ansi::segments_text(segs.subrange(0, k as int)).len(),
            walk_ok(
                LinkWalk { links: link_models(links@), char_idx: ch as int, col: col as int },
                line_idx as int,
            ),
            line_walked(start, segs, line_idx as int, 0) == line_walked(
                LinkWalk { links: link_models(links@), char_idx: ch as int, col: col as int },
                segs,
                line_idx as int,
                k as int,
            ),
        decreases n - k,
    {
        proof {
            lemma_prefix_len(segs, k as int);
            lemma_prefix_len(segs, k + 1);
            assert(segs[k as int] == line.segments@[k as int]@);
        }
        let (ch2, col2) = walk_segment(links, &line.segments[k], line_idx, ch, col);
        ch = ch2;
        col = col2;
        k += 1;
    }
}

/// A walk that reaches the next line.
proof fn lemma_next_line(w: LinkWalk, line_idx: int)
    requires
        walk_ok(w, line_idx),
    ensures
        walk_ok(LinkWalk { links: w.links, char_idx: 0, col: 0 }, line_idx + 1),
{
    let n = LinkWalk { links: w.links, char_idx: 0, col: 0 };
    assert forall|i: int, j: int|
        0 <= i < n.links.len() && 0 <= j < n.links[i].spans.len() implies {
        let s = #[trigger] n.links[i].spans[j];
        &&& s.line_idx <= line_idx + 1
        &&& s.line_idx == line_idx + 1 ==> s.start_col <= n.col && s.start_char < n.char_idx
    } by {
        let s = w.links[i].spans[j];
    }
}

/// Every span lies on a line of the document.
pub open spec fn spans_within(links: Seq<LinkModel>, line_count: int) -> bool {
    forall|i: int, j: int|
        0 <= i < links.len() && 0 <= j < links[i].spans.len() ==> (
        #[trigger] links[i].spans[j]).line_idx < line_count
}

/// Collects the links of a document.
pub fn collect_links(content: &[ParsedLine]) -> (r: Vec<LinkInfo>)
    requires
        content_fits(ansi::line_models(content@)),
    ensures
        link_models(r@) == links_of(ansi::line_models(content@)),
        links_wf(link_models(r@)),
        spans_within(link_models(r@), content@.len() as int),
{
    let ghost lines = ansi::line_models(content@);
    let mut links: Vec<LinkInfo> = Vec::new();
    let n: usize = content.len();
    let mut k: usize = 0;
    assert(link_models(links@) =~= seq![]);
    while k < n
        invariant
            n == content@.len(),
            k <= n,
            lines == ansi::line_models(content@),
            content_fits(lines),
            walk_ok(LinkWalk { links: link_models(links@), char_idx: 0, col: 0 }, k as int),
            spans_within(link_models(links@), k as int),
            links_of(lines) == links_from(link_models(links@), lines, k as int),
        decreases n - k,
    {
        assert(lines[k as int] == content@[k as int]@);
        assert(line_fits(lines[k as int]));
        let ghost start = LinkWalk { links: link_models(links@), char_idx: 0, col: 0 };
        walk_line(&mut links, &content[k], k);
        proof {
            let w = line_walked(start, lines[k as int].segments, k as int, 0);
            lemma_next_line(w, k as int);
            assert forall|i: int, j: int|
                0 <= i < w.links.len() && 0 <= j < w.links[i].spans.len() implies (
            #[trigger] w.links[i].spans[j]).line_idx < k + 1 by {
                let s = w.links[i].spans[j];
            }
        }
        k += 1;
    }
    links
}

/// Whether the columns of all lines can be counted.
pub fn content_fits_usize(content: &[ParsedLine]) -> (r: bool)
    ensures
        r == content_fits(ansi::line_models(content@)),
{
    let ghost lines = ansi::line_models(content@);
    let mut i: usize = 0;
    while i < content.len()
        invariant
            i <= content@.len(),
            lines == ansi::line_models(content@),
            forall|j: int| 0 <= j < i ==> line_fits(#[trigger] lines[j]),
        decreases content.len() - i,
    {
        assert(lines[i as int] == content@[i as int]@);
        if !line_fits_usize(&content[i]) {
            assert(!line_fits(lines[i as int]));
            return false;
        }
        i += 1;
    }
    true
}

/// Whether the columns of a line can be counted.
fn line_fits_usize(line: &ParsedLine) -> (r: bool)
    ensures
        r == line_fits(line@),
{
    let ghost segs = line@.segments;
    let limit: usize = (usize::MAX - 1) / 3;
    let mut total: usize = 0;
    let mut k: usize = 0;
    assert(segs.subrange(0, 0) =~= seq![]);
    while k < line.segments.len()
        invariant
            segs == line@.segments,
            k <= line.segments@.len(),
            limit == (usize::MAX - 1) / 3,
            total == ansi::segments_text(segs.subrange(0, k as int)).len(),
            total <= limit,
        decreases line.segments.len() - k,
    {
        proof {
            lemma_prefix_len(segs, k as int);
            lemma_prefix_len(segs, k + 1);
            assert(segs[k as int] == line.segments@[k as int]@);
        }
        let n: usize = line.segments[k].text.as_str().unicode_len();
        if n > limit - total {
            return false;
        }
        total += n;
        k += 1;
    }
    assert(segs.subrange(0, k as int) =~= segs);
    true
}

} // verus!
