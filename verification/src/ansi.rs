//! Parsing a line with ANSI escape sequences into styled, possibly linked segments.
use vstd::prelude::*;
use vstd::string::*;
use vstd::utf8::*;
use crate::strings;
use crate::strings::{chars_string, position_char, str_len, to_chars};
use crate::style;
use crate::style::{apply_sgr, AnsiStyle};

verus! {

// ---------------------------------------------------------------------------
// Types
// ---------------------------------------------------------------------------

/// A hyperlink as an escape sequence announces it.
pub struct ParsedHyperlink {
    pub params: Option<String>,
    pub id: Option<String>,
    pub url: String,
}

/// The texts of a hyperlink.
#[verifier::ext_equal]
pub struct HyperlinkModel {
    pub params: Option<Seq<char>>,
    pub id: Option<Seq<char>>,
    pub url: Seq<char>,
}

/// The text of an optional string.
pub open spec fn opt_text(s: Option<String>) -> Option<Seq<char>> {
    match s {
        Some(t) => Some(t@),
        None => None,
    }
}

impl View for ParsedHyperlink {
    type V = HyperlinkModel;

    open spec fn view(&self) -> HyperlinkModel {
        HyperlinkModel { params: opt_text(self.params), id: opt_text(self.id), url: self.url@ }
    }
}

pub open spec fn opt_link(h: Option<ParsedHyperlink>) -> Option<HyperlinkModel> {
    match h {
        Some(l) => Some(l@),
        None => None,
    }
}

fn copy_opt(s: &Option<String>) -> (r: Option<String>)
    ensures
        opt_text(r) == opt_text(*s),
{
    match s {
        Some(t) => Some(t.clone()),
        None => None,
    }
}

impl ParsedHyperlink {
    pub fn new(params: Option<String>, id: Option<String>, url: String) -> (r: Self)
        ensures
            r@ == (HyperlinkModel { params: opt_text(params), id: opt_text(id), url: url@ }),
    {
        ParsedHyperlink { params, id, url }
    }

    /// The parameters as text, empty if there are none.
    pub fn params_fragment(&self) -> (r: String)
        ensures
            r@ == params_text(self@),
    {
        match &self.params {
            Some(p) => p.clone(),
            None => String::new(),
        }
    }

    /// A copy.
    pub fn copy(&self) -> (r: Self)
        ensures
            r@ == self@,
    {
        ParsedHyperlink {
            params: copy_opt(&self.params),
            id: copy_opt(&self.id),
            url: self.url.clone(),
        }
    }
}

/// The parameters of a hyperlink as text, empty if there are none.
pub open spec fn params_text(h: HyperlinkModel) -> Seq<char> {
    match h.params {
        Some(p) => p,
        None => seq![],
    }
}

/// A copy of an optional hyperlink.
pub fn copy_link(h: &Option<ParsedHyperlink>) -> (r: Option<ParsedHyperlink>)
    ensures
        opt_link(r) == opt_link(*h),
{
    match h {
        Some(l) => Some(l.copy()),
        None => None,
    }
}

/// A run of text with one style and one hyperlink. `start` and `end` are its byte range in the
/// plain text of the line.
pub struct ParsedLineSegment {
    pub text: String,
    pub start: usize,
    pub end: usize,
    pub style: AnsiStyle,
    pub hyperlink: Option<ParsedHyperlink>,
}

#[verifier::ext_equal]
pub struct SegmentModel {
    pub text: Seq<char>,
    pub start: int,
    pub end: int,
    pub style: AnsiStyle,
    pub hyperlink: Option<HyperlinkModel>,
}

impl View for ParsedLineSegment {
    type V = SegmentModel;

    open spec fn view(&self) -> SegmentModel {
        SegmentModel {
            text: self.text@,
            start: self.start as int,
            end: self.end as int,
            style: self.style,
            hyperlink: opt_link(self.hyperlink),
        }
    }
}

pub open spec fn segment_models(v: Seq<ParsedLineSegment>) -> Seq<SegmentModel> {
    Seq::new(v.len(), |i: int| v[i]@)
}

/// A parsed line: its styled segments, and its text without escape sequences.
pub struct ParsedLine {
    pub segments: Vec<ParsedLineSegment>,
    pub plain: String,
}

#[verifier::ext_equal]
pub struct LineModel {
    pub segments: Seq<SegmentModel>,
    pub plain: Seq<char>,
}

impl View for ParsedLine {
    type V = LineModel;

    open spec fn view(&self) -> LineModel {
        LineModel { segments: segment_models(self.segments@), plain: self.plain@ }
    }
}

pub open spec fn line_models(v: Seq<ParsedLine>) -> Seq<LineModel> {
    Seq::new(v.len(), |i: int| v[i]@)
}

/// The texts of segments, one after the other.
pub open spec fn segments_text(segments: Seq<SegmentModel>) -> Seq<char>
    decreases segments.len(),
{
    if segments.len() == 0 {
        seq![]
    } else {
        segments_text(segments.drop_last()) + segments.last().text
    }
}

/// The segments follow each other without a gap: each is a non-empty text, and starts at the byte
/// offset where the texts before it end.
pub open spec fn contiguous(segments: Seq<SegmentModel>) -> bool {
    forall|k: int|
        0 <= k < segments.len() ==> {
            let s = #[trigger] segments[k];
            &&& s.text.len() > 0
            &&& s.start == strings::byte_len(segments_text(segments.subrange(0, k)))
            &&& s.end == s.start + strings::byte_len(s.text)
        }
}

impl LineModel {
    /// The segments are exactly the plain text, cut into pieces.
    pub open spec fn partitioned(self) -> bool {
        &&& contiguous(self.segments)
        &&& segments_text(self.segments) == self.plain
    }
}

// ---------------------------------------------------------------------------
// Hyperlinks
// ---------------------------------------------------------------------------

/// The value of the first `id=` entry among the `:`-separated parameters from `i` on.
pub open spec fn link_id(params: Seq<char>, i: int) -> Option<Seq<char>>
    decreases params.len() - i,
{
    if i < 0 || i > params.len() {
        None
    } else {
        let end = match strings::find_char(params, ':', i) {
            Some(k) => k,
            None => params.len() as int,
        };
        let part = params.subrange(i, end);
        if part.len() >= 3 && part[0] == 'i' && part[1] == 'd' && part[2] == '=' {
            Some(part.subrange(3, part.len() as int))
        } else if end < params.len() {
            proof {
                strings::lemma_find_char(params, ':', i);
            }
            link_id(params, end + 1)
        } else {
            None
        }
    }
}

/// Where the parameters of a hyperlink command start: after the `8` and a `;`, if there is one.
pub open spec fn link_params_start(content: Seq<char>) -> int {
    if content.len() > 1 && content[1] == ';' {
        2
    } else {
        1
    }
}

/// The hyperlink after an operating system command: `8;params;url` opens one, an empty URL closes
/// it, and any other command leaves it.
pub open spec fn osc_applied(link: Option<HyperlinkModel>, content: Seq<char>) -> Option<
    HyperlinkModel,
> {
    if content.len() == 0 || content[0] != '8' {
        link
    } else {
        let start = link_params_start(content);
        match strings::find_char(content, ';', start) {
            None => link,
            Some(k) => if k + 1 == content.len() {
                None
            } else {
                let params = content.subrange(start, k);
                Some(
                    HyperlinkModel {
                        params: if params.len() == 0 {
                            None
                        } else {
                            Some(params)
                        },
                        id: link_id(params, 0),
                        url: content.subrange(k + 1, content.len() as int),
                    },
                )
            },
        }
    }
}

/// The value of the first `id=` entry.
fn find_link_id(params: &Vec<char>) -> (r: Option<String>)
    ensures
        opt_text(r) == link_id(params@, 0),
{
    let n: usize = params.len();
    let mut i: usize = 0;
    loop
        invariant
            n == params@.len(),
            i <= n,
            link_id(params@, 0) == link_id(params@, i as int),
        decreases n - i,
    {
        let end: usize = match position_char(params.as_slice(), ':', i) {
            Some(k) => k,
            None => n,
        };
        let ghost part = params@.subrange(i as int, end as int);
        if end - i >= 3 && params[i] == 'i' && params[i + 1] == 'd' && params[i + 2] == '=' {
            let value = chars_string(params.as_slice(), i + 3, end);
            assert(value@ =~= part.subrange(3, part.len() as int));
            return Some(value);
        }
        if end >= n {
            return None;
        }
        i = end + 1;
    }
}

/// Applies an operating system command to the current hyperlink.
pub fn apply_osc(content: &[char], link: &mut Option<ParsedHyperlink>)
    ensures
        opt_link(*final(link)) == osc_applied(opt_link(*old(link)), content@),
{
    let n: usize = content.len();
    if n == 0 || content[0] != '8' {
        return;
    }
    let start: usize = if n > 1 && content[1] == ';' {
        2
    } else {
        1
    };
    let k: usize = match position_char(content, ';', start) {
        Some(k) => k,
        None => return,
    };
    if k + 1 == n {
        *link = None;
        return;
    }
    let text = chars_string(content, start, k);
    let params = to_chars(text.as_str());
    let id = find_link_id(&params);
    let url = chars_string(content, k + 1, n);
    *link = Some(
        ParsedHyperlink::new(
            if start == k {
                None
            } else {
                Some(text)
            },
            id,
            url,
        ),
    );
}

// ---------------------------------------------------------------------------
// Lines
// ---------------------------------------------------------------------------

/// The position of the final character of a control sequence whose parameters start at `i`.
pub open spec fn csi_final(s: Seq<char>, i: int) -> Option<int>
    decreases s.len() - i,
{
    if i < 0 || i >= s.len() {
        None
    } else if 0x40 <= s[i] as u32 <= 0x7e {
        Some(i)
    } else {
        csi_final(s, i + 1)
    }
}

/// Whether a string terminator (ESC \\) stands at `i`.
pub open spec fn terminator_at(s: Seq<char>, i: int) -> bool {
    0 <= i && i + 1 < s.len() && s[i] == '\u{1b}' && s[i + 1] == '\\'
}

/// Where the content of an operating system command ends that is looked at from `i` on: at a
/// bell, at a string terminator, or at the end.
pub open spec fn osc_content_end(s: Seq<char>, i: int) -> int
    decreases s.len() - i,
{
    if i < 0 || i >= s.len() || s[i] == '\u{7}' || terminator_at(s, i) {
        i
    } else {
        osc_content_end(s, i + 1)
    }
}

pub proof fn lemma_sequence_ends(s: Seq<char>, i: int)
    requires
        0 <= i <= s.len(),
    ensures
        match csi_final(s, i) {
            Some(k) => i <= k < s.len() && 0x40 <= s[k] as u32 <= 0x7e,
            None => true,
        },
        i <= osc_content_end(s, i) <= s.len(),
    decreases s.len() - i,
{
    if i < s.len() {
        lemma_sequence_ends(s, i + 1);
    }
}

/// Where parsing goes on after a command whose content ends at `e`.
pub open spec fn osc_next(s: Seq<char>, e: int) -> int {
    if e >= s.len() {
        s.len() as int
    } else if s[e] == '\u{7}' {
        e + 1
    } else {
        e + 2
    }
}

/// What has been parsed: finished segments, the text of the segment under way, and the current
/// style and hyperlink.
#[verifier::ext_equal]
pub struct ParseState {
    pub segments: Seq<SegmentModel>,
    pub text: Seq<char>,
    pub plain: Seq<char>,
    pub style: AnsiStyle,
    pub link: Option<HyperlinkModel>,
}

/// The state with the segment under way finished.
pub open spec fn flushed(st: ParseState) -> ParseState {
    if st.text.len() == 0 {
        st
    } else {
        ParseState {
            segments: st.segments.push(
                SegmentModel {
                    text: st.text,
                    start: strings::byte_len(st.plain) - strings::byte_len(st.text),
                    end: strings::byte_len(st.plain),
                    style: st.style,
                    hyperlink: st.link,
                },
            ),
            text: seq![],
            ..st
        }
    }
}

/// The state at the start of a line.
pub open spec fn fresh() -> ParseState {
    ParseState {
        segments: seq![],
        text: seq![],
        plain: seq![],
        style: style::plain_style(),
        link: None,
    }
}

/// One step of parsing at position `i`: the state after it and the next position. Escape sequences
/// end a segment and change style or hyperlink, carriage returns and bells are dropped, other
/// characters are text. `None` where an escape character is followed by a character outside ASCII.
pub open spec fn parse_step(s: Seq<char>, i: int, st: ParseState) -> Option<(ParseState, int)> {
    if s[i] == '\u{1b}' {
        let f = flushed(st);
        if i + 1 >= s.len() {
            Some((f, s.len() as int))
        } else if s[i + 1] == '[' {
            match csi_final(s, i + 2) {
                Some(k) => if s[k] == 'm' {
                    Some(
                        (
                            ParseState {
                                style: style::sgr_applied(
                                    f.style,
                                    encode_utf8(s.subrange(i + 2, k)),
                                ),
                                ..f
                            },
                            k + 1,
                        ),
                    )
                } else {
                    Some((f, k + 1))
                },
                None => Some((f, s.len() as int)),
            }
        } else if s[i + 1] == ']' {
            let e = osc_content_end(s, i + 2);
            Some(
                (
                    ParseState { link: osc_applied(f.link, s.subrange(i + 2, e)), ..f },
                    osc_next(s, e),
                ),
            )
        } else if (s[i + 1] as u32) < 0x80 {
            Some((f, i + 2))
        } else {
            None
        }
    } else if s[i] == '\r' || s[i] == '\u{7}' {
        Some((st, i + 1))
    } else {
        Some((ParseState { text: st.text.push(s[i]), plain: st.plain.push(s[i]), ..st }, i + 1))
    }
}

pub proof fn lemma_step_advances(s: Seq<char>, i: int, st: ParseState)
    requires
        0 <= i < s.len(),
        parse_step(s, i, st) is Some,
    ensures
        i < (parse_step(s, i, st)->0).1 <= s.len(),
{
    if i + 2 <= s.len() {
        lemma_sequence_ends(s, i + 2);
        let e = osc_content_end(s, i + 2);
        lemma_osc_stop(s, i + 2);
    }
}

/// A command ends at a bell, at a string terminator or at the end.
proof fn lemma_osc_stop(s: Seq<char>, i: int)
    requires
        0 <= i <= s.len(),
    ensures
        ({
            let e = osc_content_end(s, i);
            e >= s.len() || s[e] == '\u{7}' || terminator_at(s, e)
        }),
    decreases s.len() - i,
{
    if i < s.len() && s[i] != '\u{7}' && !terminator_at(s, i) {
        lemma_osc_stop(s, i + 1);
    }
}

/// Parsing from position `i` on.
pub open spec fn parse_from(s: Seq<char>, i: int, st: ParseState) -> Option<ParseState>
    decreases s.len() - i,
{
    if i < 0 || i >= s.len() {
        Some(flushed(st))
    } else {
        match parse_step(s, i, st) {
            Some((next, k)) => {
                proof {
                    lemma_step_advances(s, i, st);
                }
                parse_from(s, k, next)
            },
            None => None,
        }
    }
}

/// The parsed form of a line.
pub open spec fn parsed(line: Seq<char>) -> Option<LineModel> {
    match parse_from(line, 0, fresh()) {
        Some(st) => Some(LineModel { segments: st.segments, plain: st.plain }),
        None => None,
    }
}

// ---------------------------------------------------------------------------
// What parsing keeps
// ---------------------------------------------------------------------------

/// The finished segments and the text under way are the plain text, which holds no escape
/// character, carriage return or bell.
pub open spec fn parse_invariant(st: ParseState) -> bool {
    &&& contiguous(st.segments)
    &&& segments_text(st.segments) + st.text == st.plain
    &&& forall|k: int|
        0 <= k < st.plain.len() ==> #[trigger] st.plain[k] != '\u{1b}' && st.plain[k] != '\r'
            && st.plain[k] != '\u{7}'
}

proof fn lemma_flush(st: ParseState)
    requires
        parse_invariant(st),
    ensures
        parse_invariant(flushed(st)),
        flushed(st).text.len() == 0,
{
    if st.text.len() > 0 {
        let f = flushed(st);
        let done = segments_text(st.segments);
        strings::lemma_encode_concat(done, st.text);
        assert(f.segments.drop_last() =~= st.segments);
        assert(segments_text(f.segments) =~= st.plain);
        assert(segments_text(f.segments) + f.text =~= st.plain);
        assert forall|k: int| 0 <= k < f.segments.len() implies {
            let s = #[trigger] f.segments[k];
            &&& s.text.len() > 0
            &&& s.start == strings::byte_len(segments_text(f.segments.subrange(0, k)))
            &&& s.end == s.start + strings::byte_len(s.text)
        } by {
            if k < st.segments.len() {
                assert(f.segments[k] == st.segments[k]);
                assert(f.segments.subrange(0, k) =~= st.segments.subrange(0, k));
            } else {
                assert(f.segments.subrange(0, k) =~= st.segments);
            }
        }
    } else {
        assert(st.segments =~= flushed(st).segments);
    }
}

pub proof fn lemma_step_keeps(s: Seq<char>, i: int, st: ParseState)
    requires
        0 <= i < s.len(),
        parse_invariant(st),
        parse_step(s, i, st) is Some,
    ensures
        parse_invariant((parse_step(s, i, st)->0).0),
{
    lemma_flush(st);
    if s[i] != '\u{1b}' && s[i] != '\r' && s[i] != '\u{7}' {
        let n = (parse_step(s, i, st)->0).0;
        assert(segments_text(n.segments) + n.text =~= (segments_text(st.segments)
            + st.text).push(s[i]));
    }
}

proof fn lemma_parse_keeps(s: Seq<char>, i: int, st: ParseState)
    requires
        0 <= i,
        parse_invariant(st),
        parse_from(s, i, st) is Some,
    ensures
        parse_invariant(parse_from(s, i, st)->0),
        (parse_from(s, i, st)->0).text.len() == 0,
    decreases s.len() - i,
{
    if i >= s.len() {
        lemma_flush(st);
    } else {
        lemma_step_keeps(s, i, st);
        lemma_step_advances(s, i, st);
        let (next, k) = parse_step(s, i, st)->0;
        lemma_parse_keeps(s, k, next);
    }
}

/// The segments of a parsed line are exactly its plain text, cut into non-empty pieces at the
/// byte offsets that they record.
pub proof fn law_segments_partition(line: Seq<char>)
    requires
        parsed(line) is Some,
    ensures
        (parsed(line)->0).partitioned(),
{
    assert(fresh().segments =~= seq![]);
    assert(segments_text(seq![]) + Seq::<char>::empty() =~= seq![]);
    lemma_parse_keeps(line, 0, fresh());
    let st = parse_from(line, 0, fresh())->0;
    assert(segments_text(st.segments) + st.text =~= segments_text(st.segments));
}

/// The plain text of a parsed line holds no escape character, no carriage return and no bell.
pub proof fn law_plain_is_clean(line: Seq<char>, k: int)
    requires
        parsed(line) is Some,
        0 <= k < (parsed(line)->0).plain.len(),
    ensures
        (parsed(line)->0).plain[k] != '\u{1b}',
        (parsed(line)->0).plain[k] != '\r',
        (parsed(line)->0).plain[k] != '\u{7}',
{
    assert(segments_text(seq![]) + Seq::<char>::empty() =~= seq![]);
    lemma_parse_keeps(line, 0, fresh());
}

proof fn lemma_parse_plain(s: Seq<char>, i: int, st: ParseState)
    requires
        0 <= i <= s.len(),
        forall|k: int|
            0 <= k < s.len() ==> #[trigger] s[k] != '\u{1b}' && s[k] != '\r' && s[k] != '\u{7}',
        st.text == s.subrange(0, i),
        st.plain == s.subrange(0, i),
    ensures
        parse_from(s, i, st) == Some(flushed(ParseState { text: s, plain: s, ..st })),
    decreases s.len() - i,
{
    if i < s.len() {
        assert(s.subrange(0, i).push(s[i]) =~= s.subrange(0, i + 1));
        let next = ParseState { text: st.text.push(s[i]), plain: st.plain.push(s[i]), ..st };
        lemma_parse_plain(s, i + 1, next);
    } else {
        assert(s.subrange(0, i) =~= s);
    }
}

/// A line without control characters is its own plain text, in a single unstyled segment (or none,
/// for the empty line).
pub proof fn law_unstyled_line(line: Seq<char>)
    requires
        forall|k: int|
            0 <= k < line.len() ==> #[trigger] line[k] != '\u{1b}' && line[k] != '\r' && line[k]
                != '\u{7}',
    ensures
        parsed(line) == Some(
            LineModel {
                plain: line,
                segments: if line.len() == 0 {
                    seq![]
                } else {
                    seq![
                        SegmentModel {
                            text: line,
                            start: 0,
                            end: strings::byte_len(line),
                            style: style::plain_style(),
                            hyperlink: None,
                        },
                    ]
                },
            },
        ),
{
    assert(line.subrange(0, 0) =~= seq![]);
    lemma_parse_plain(line, 0, fresh());
    let st = flushed(ParseState { text: line, plain: line, ..fresh() });
    if line.len() > 0 {
        assert(st.segments =~= seq![
            SegmentModel {
                text: line,
                start: 0,
                end: strings::byte_len(line),
                style: style::plain_style(),
                hyperlink: None,
            },
        ]);
    } else {
        assert(line =~= seq![]);
    }
}

// ---------------------------------------------------------------------------
// Parsing
// ---------------------------------------------------------------------------

/// Finishes the segment under way, if it holds any text.
fn flush_segment(
    segments: &mut Vec<ParsedLineSegment>,
    current_text: &mut String,
    style: AnsiStyle,
    plain_len: usize,
    hyperlink: &Option<ParsedHyperlink>,
    Ghost(st): Ghost<ParseState>,
)
    requires
        parse_invariant(st),
        segment_models(old(segments)@) == st.segments,
        old(current_text)@ == st.text,
        plain_len == strings::byte_len(st.plain),
        style == st.style,
        opt_link(*hyperlink) == st.link,
    ensures
        segment_models(final(segments)@) == flushed(st).segments,
        final(current_text)@ == flushed(st).text,
{
    if current_text.as_str().is_empty() {
        return;
    }
    proof {
        strings::lemma_encode_concat(segments_text(st.segments), st.text);
    }
    let text = current_text.clone();
    current_text.clear();
    let size: usize = str_len(text.as_str());
    let segment = ParsedLineSegment {
        text,
        start: plain_len - size,
        end: plain_len,
        style,
        hyperlink: copy_link(hyperlink),
    };
    segments.push(segment);
    assert(segment_models(segments@) =~= st.segments.push(segment@));
}

fn find_csi_final(s: &Vec<char>, from: usize) -> (r: Option<usize>)
    ensures
        match r {
            Some(k) => csi_final(s@, from as int) == Some(k as int) && from <= k < s@.len(),
            None => csi_final(s@, from as int) is None,
        },
{
    let n: usize = s.len();
    let mut i: usize = from;
    while i < n
        invariant
            n == s@.len(),
            from <= i,
            csi_final(s@, from as int) == csi_final(s@, i as int),
        decreases n - i,
    {
        let v: u32 = s[i] as u32;
        if 0x40 <= v && v <= 0x7e {
            return Some(i);
        }
        i += 1;
    }
    None
}

fn find_osc_content_end(s: &Vec<char>, from: usize) -> (r: usize)
    requires
        from <= s@.len(),
    ensures
        r == osc_content_end(s@, from as int),
        from <= r <= s@.len(),
{
    let n: usize = s.len();
    let mut i: usize = from;
    while i < n
        invariant
            n == s@.len(),
            from <= i <= n,
            osc_content_end(s@, from as int) == osc_content_end(s@, i as int),
        decreases n - i,
    {
        if s[i] == '\u{7}' {
            return i;
        }
        if s[i] == '\u{1b}' && i + 1 < n && s[i + 1] == '\\' {
            return i;
        }
        i += 1;
    }
    i
}

/// Applies the control sequence whose parameters start at `start`, and returns where parsing goes
/// on.
pub fn parse_csi_sequence(s: &Vec<char>, start: usize, style: &mut AnsiStyle) -> (r: usize)
    requires
        start <= s@.len(),
    ensures
        match csi_final(s@, start as int) {
            Some(k) => {
                &&& r == k + 1
                &&& r <= s@.len()
                &&& *final(style) == (if s@[k] == 'm' {
                    style::sgr_applied(*old(style), encode_utf8(s@.subrange(start as int, k)))
                } else {
                    *old(style)
                })
            },
            None => r == s@.len() && *final(style) == *old(style),
        },
{
    let n: usize = s.len();
    match find_csi_final(s, start) {
        Some(k) => {
            if s[k] == 'm' {
                let params = chars_string(s.as_slice(), start, k);
                apply_sgr(params.as_str().as_bytes(), style);
            }
            k + 1
        },
        None => n,
    }
}

/// Applies the operating system command whose content starts at `start`, and returns where
/// parsing goes on.
pub fn parse_osc_sequence(s: &Vec<char>, start: usize, link: &mut Option<ParsedHyperlink>) -> (r:
    usize)
    requires
        start <= s@.len(),
    ensures
        ({
            let e = osc_content_end(s@, start as int);
            &&& r == osc_next(s@, e)
            &&& r <= s@.len()
            &&& opt_link(*final(link)) == osc_applied(
                opt_link(*old(link)),
                s@.subrange(start as int, e),
            )
        }),
{
    let n: usize = s.len();
    let e = find_osc_content_end(s, start);
    proof {
        lemma_osc_stop(s@, start as int);
    }
    apply_osc(vstd::slice::slice_subrange(s.as_slice(), start, e), link);
    if e >= n {
        n
    } else if s[e] == '\u{7}' {
        e + 1
    } else {
        e + 2
    }
}

impl ParsedLine {
    /// Parses a line with ANSI escape sequences; `None` where an escape character is followed by a
    /// character outside ASCII.
    pub fn try_from_ansi(line: &str) -> (r: Option<Self>)
        ensures
            match r {
                Some(p) => parsed(line@) == Some(p@) && p@.partitioned(),
                None => parsed(line@) is None,
            },
    {
        let s = to_chars(line);
        let n: usize = s.len();
        let mut plain = String::new();
        let mut segments: Vec<ParsedLineSegment> = Vec::new();
        let mut text = String::new();
        let mut style = AnsiStyle::plain();
        let mut link: Option<ParsedHyperlink> = None;
        let mut i: usize = 0;
        let ghost mut st = fresh();
        proof {
            assert(segment_models(segments@) =~= st.segments);
            assert(segments_text(seq![]) + Seq::<char>::empty() =~= seq![]);
        }
        while i < n
            invariant
                n == s@.len(),
                s@ == line@,
                i <= n,
                parse_from(line@, 0, fresh()) == parse_from(s@, i as int, st),
                parse_invariant(st),
                segment_models(segments@) == st.segments,
                text@ == st.text,
                plain@ == st.plain,
                style == st.style,
                opt_link(link) == st.link,
            decreases n - i,
        {
            let c = s[i];
            let ghost step = parse_step(s@, i as int, st);
            proof {
                lemma_flush(st);
                if step is Some {
                    lemma_step_advances(s@, i as int, st);
                    lemma_step_keeps(s@, i as int, st);
                }
            }
            if c == '\u{1b}' {
                let plain_len = str_len(plain.as_str());
                flush_segment(&mut segments, &mut text, style, plain_len, &link, Ghost(st));
                if i + 1 >= n {
                    i = n;
                } else if s[i + 1] == '[' {
                    i = parse_csi_sequence(&s, i + 2, &mut style);
                } else if s[i + 1] == ']' {
                    i = parse_osc_sequence(&s, i + 2, &mut link);
                } else if (s[i + 1] as u32) < 0x80 {
                    i += 2;
                } else {
                    return None;
                }
            } else if c == '\r' || c == '\u{7}' {
                i += 1;
            } else {
                text.push(c);
                plain.push(c);
                i += 1;
            }
            proof {
                st = (step->0).0;
            }
        }
        proof {
            lemma_flush(st);
            law_segments_partition(line@);
        }
        let plain_len = str_len(plain.as_str());
        flush_segment(&mut segments, &mut text, style, plain_len, &link, Ghost(st));
        let r = ParsedLine { segments, plain };
        assert(parsed(line@) == Some(r@));
        Some(r)
    }

    /// Parses a line with ANSI escape sequences.
    pub fn from_ansi(line: &str) -> (r: Self)
        requires
            parsed(line@) is Some,
        ensures
            parsed(line@) == Some(r@),
            r@.partitioned(),
    {
        ParsedLine::try_from_ansi(line).unwrap()
    }
}

/// Parses lines; `None` where some line cannot be parsed.
pub fn try_parse_content_to_lines(content: &[String]) -> (r: Option<Vec<ParsedLine>>)
    ensures
        match r {
            Some(lines) => {
                &&& lines@.len() == content@.len()
                &&& forall|i: int|
                    0 <= i < lines@.len() ==> parsed(content@[i]@) == Some((#[trigger] lines@[i])@)
                        && lines@[i]@.partitioned()
            },
            None => exists|i: int|
                0 <= i < content@.len() && parsed((#[trigger] content@[i])@) is None,
        },
{
    let mut out: Vec<ParsedLine> = Vec::new();
    let mut i: usize = 0;
    while i < content.len()
        invariant
            i <= content@.len(),
            out@.len() == i,
            forall|j: int|
                0 <= j < i ==> parsed(content@[j]@) == Some((#[trigger] out@[j])@)
                    && out@[j]@.partitioned(),
        decreases content.len() - i,
    {
        match ParsedLine::try_from_ansi(content[i].as_str()) {
            Some(line) => out.push(line),
            None => {
                assert(parsed(content@[i as int]@) is None);
                return None;
            },
        }
        i += 1;
    }
    Some(out)
}

/// Parses lines.
pub fn parse_content_to_lines(content: &[String]) -> (r: Vec<ParsedLine>)
    requires
        forall|i: int| 0 <= i < content@.len() ==> parsed((#[trigger] content@[i])@) is Some,
    ensures
        r@.len() == content@.len(),
        forall|i: int|
            0 <= i < r@.len() ==> parsed(content@[i]@) == Some((#[trigger] r@[i])@)
                && r@[i]@.partitioned(),
{
    try_parse_content_to_lines(content).unwrap()
}

} // verus!
