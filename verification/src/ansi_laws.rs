//! How styles and hyperlinks in a line are read.
use vstd::prelude::*;
use vstd::string::*;
use vstd::utf8::*;
use crate::ansi;
use crate::ansi::{HyperlinkModel, LineModel, ParseState, SegmentModel};
use crate::screen;
use crate::screen_laws;
use crate::strings;
use crate::style;
use crate::style::AnsiStyle;

verus! {

/// Text without control characters that mean something in a line.
pub open spec fn clean(s: Seq<char>) -> bool {
    forall|k: int|
        0 <= k < s.len() ==> #[trigger] s[k] != '\u{1b}' && s[k] != '\r' && s[k] != '\u{7}'
}

/// A segment of text that starts at a byte of its line.
pub open spec fn segment(
    text: Seq<char>,
    start: int,
    style: AnsiStyle,
    hyperlink: Option<HyperlinkModel>,
) -> SegmentModel {
    SegmentModel { text, start, end: start + strings::byte_len(text), style, hyperlink }
}

/// Clean text is taken over.
proof fn lemma_run(s: Seq<char>, i: int, t: Seq<char>, st: ParseState)
    requires
        0 <= i,
        i + t.len() <= s.len(),
        s.subrange(i, i + t.len()) == t,
        clean(t),
    ensures
        ansi::parse_from(s, i, st) == ansi::parse_from(
            s,
            i + t.len(),
            ParseState { text: st.text + t, plain: st.plain + t, ..st },
        ),
    decreases t.len(),
{
    if t.len() > 0 {
        assert(s[i] == t[0]);
        let rest = t.subrange(1, t.len() as int);
        assert(s.subrange(i + 1, i + 1 + rest.len()) =~= rest);
        assert forall|k: int| 0 <= k < rest.len() implies #[trigger] rest[k] != '\u{1b}' && rest[k]
            != '\r' && rest[k] != '\u{7}' by {
            assert(rest[k] == t[k + 1]);
        }
        let next = ParseState { text: st.text.push(s[i]), plain: st.plain.push(s[i]), ..st };
        lemma_run(s, i + 1, rest, next);
        assert(next.text + rest =~= st.text + t);
        assert(next.plain + rest =~= st.plain + t);
    } else {
        assert(st.text + t =~= st.text);
        assert(st.plain + t =~= st.plain);
    }
}

/// Parameters of a control sequence: characters that do not end one.
pub open spec fn parameters(p: Seq<char>) -> bool {
    forall|k: int| 0 <= k < p.len() ==> !(0x40 <= #[trigger] (p[k] as u32) <= 0x7e)
}

proof fn lemma_final(s: Seq<char>, i: int, k: int)
    requires
        0 <= i <= k < s.len(),
        forall|j: int| i <= j < k ==> !(0x40 <= #[trigger] (s[j] as u32) <= 0x7e),
        0x40 <= s[k] as u32 <= 0x7e,
    ensures
        ansi::csi_final(s, i) == Some(k),
    decreases k - i,
{
    if i < k {
        assert(!(0x40 <= s[i] as u32 <= 0x7e));
        lemma_final(s, i + 1, k);
    }
}

/// The segments of a state with all its text in segments.
proof fn lemma_flushed(st: ParseState)
    requires
        st.text.len() > 0,
    ensures
        ansi::flushed(st).segments == st.segments.push(
            SegmentModel {
                text: st.text,
                start: strings::byte_len(st.plain) - strings::byte_len(st.text),
                end: strings::byte_len(st.plain),
                style: st.style,
                hyperlink: st.link,
            },
        ),
        ansi::flushed(st).text == Seq::<char>::empty(),
        ansi::flushed(st).plain == st.plain,
        ansi::flushed(st).style == st.style,
        ansi::flushed(st).link == st.link,
{
}

/// A control sequence applies to the text behind it and to nothing before it: ESC [, parameters and
/// `m` change the style by these parameters. Any other final character changes nothing. The sequence
/// itself is no text.
pub proof fn law_style_sequence(a: Seq<char>, p: Seq<char>, f: char, t: Seq<char>)
    requires
        clean(a),
        clean(t),
        a.len() > 0,
        t.len() > 0,
        parameters(p),
        0x40 <= f as u32 <= 0x7e,
    ensures
        ({
            let plain = style::plain_style();
            let changed = if f == 'm' {
                style::sgr_applied(plain, encode_utf8(p))
            } else {
                plain
            };
            ansi::parsed(a + seq!['\u{1b}', '['] + p + seq![f] + t) == Some(
                LineModel {
                    segments: seq![
                        segment(a, 0, plain, None),
                        segment(t, strings::byte_len(a), changed, None),
                    ],
                    plain: a + t,
                },
            )
        }),
{
    let s = a + seq!['\u{1b}', '['] + p + seq![f] + t;
    let n = a.len() as int;
    let k = n + 2 + p.len();
    let st0 = ansi::fresh();
    assert(s.subrange(0, n) =~= a);
    lemma_run(s, 0, a, st0);
    let st1 = ParseState { text: st0.text + a, plain: st0.plain + a, ..st0 };
    assert(st1.text =~= a && st1.plain =~= a);
    assert(s[n] == '\u{1b}' && s[n + 1] == '[');
    assert forall|j: int| n + 2 <= j < k implies !(0x40 <= #[trigger] (s[j] as u32) <= 0x7e) by {
        assert(s[j] == p[j - n - 2]);
        assert(!(0x40 <= (p[j - n - 2] as u32) <= 0x7e));
    }
    assert(s[k] == f);
    lemma_final(s, n + 2, k);
    assert(s.subrange(n + 2, k) =~= p);
    lemma_flushed(st1);
    let f1 = ansi::flushed(st1);
    let st2 = (ansi::parse_step(s, n, st1)->0).0;
    assert(ansi::parse_from(s, n, st1) == ansi::parse_from(s, k + 1, st2));
    assert(s.subrange(k + 1, k + 1 + t.len()) =~= t);
    lemma_run(s, k + 1, t, st2);
    let st3 = ParseState { text: st2.text + t, plain: st2.plain + t, ..st2 };
    assert(st3.text =~= t && st3.plain =~= a + t);
    lemma_flushed(st3);
    strings::lemma_encode_concat(a, t);
    let changed = st3.style;
    assert(ansi::flushed(st3).segments =~= seq![
        segment(a, 0, style::plain_style(), None),
        segment(t, strings::byte_len(a), changed, None),
    ]);
}

// ---------------------------------------------------------------------------
// Hyperlinks
// ---------------------------------------------------------------------------

/// The command `8 ; parameters ; address` starts a hyperlink with that address, and `8 ; ;` ends
/// one; parameters that are empty are none.
pub proof fn law_link_command(
    link: Option<HyperlinkModel>,
    params: Seq<char>,
    url: Seq<char>,
)
    requires
        !params.contains(';'),
    ensures
        ansi::osc_applied(link, seq!['8', ';'] + params + seq![';'] + url) == (if url.len() == 0 {
            None
        } else {
            Some(
                HyperlinkModel {
                    params: if params.len() == 0 {
                        None
                    } else {
                        Some(params)
                    },
                    id: ansi::link_id(params, 0),
                    url,
                },
            )
        }),
{
    let c = seq!['8', ';'] + params + seq![';'] + url;
    let k = 2 + params.len() as int;
    assert(c[0] == '8' && c[1] == ';' && c[k] == ';');
    strings::lemma_find_char(c, ';', 2);
    assert forall|j: int| 2 <= j < k implies c[j] != ';' by {
        assert(c[j] == params[j - 2]);
        if c[j] == ';' {
            assert(params.contains(';'));
        }
    }
    assert(ansi::link_params_start(c) == 2);
    assert(strings::find_char(c, ';', 2) == Some(k));
    assert(c.subrange(2, k) =~= params);
    assert(c.subrange(k + 1, c.len() as int) =~= url);
}

/// Other commands leave the hyperlink as it is, and so does one that breaks off.
pub proof fn law_other_commands(link: Option<HyperlinkModel>, content: Seq<char>)
    ensures
        content.len() == 0 || content[0] != '8' ==> ansi::osc_applied(link, content) == link,
        ansi::osc_applied(link, seq!['8']) == link,
        ansi::osc_applied(link, seq!['8', ';']) == link,
{
    strings::lemma_find_char(seq!['8'], ';', 1);
    strings::lemma_find_char(seq!['8', ';'], ';', 2);
}

/// Looking for an identifier behind `a` finds what is found alone.
proof fn lemma_id_behind(a: Seq<char>, b: Seq<char>, i: int)
    requires
        0 <= i <= b.len(),
    ensures
        ansi::link_id(a + b, a.len() + i) == ansi::link_id(b, i),
    decreases b.len() - i,
{
    let s = a + b;
    let n = a.len() as int;
    strings::lemma_find_char(b, ':', i);
    strings::lemma_find_char(s, ':', n + i);
    assert(forall|j: int| 0 <= j < b.len() ==> s[n + j] == b[j]);
    match strings::find_char(b, ':', i) {
        Some(k) => {
            assert(s[n + k] == ':');
            assert forall|j: int| n + i <= j < n + k implies s[j] != ':' by {
                assert(s[n + (j - n)] == b[j - n]);
            }
            assert(strings::find_char(s, ':', n + i) == Some(n + k));
            assert(s.subrange(n + i, n + k) =~= b.subrange(i, k));
            lemma_id_behind(a, b, k + 1);
        },
        None => {
            assert forall|j: int| n + i <= j < s.len() implies s[j] != ':' by {
                assert(s[n + (j - n)] == b[j - n]);
            }
            assert(strings::find_char(s, ':', n + i) is None);
            assert(s.subrange(n + i, s.len() as int) =~= b.subrange(i, b.len() as int));
        },
    }
}

/// The identifier of a hyperlink is the value of the first parameter `id=...`; parameters are
/// separated by colons.
pub proof fn law_link_id(entry: Seq<char>, rest: Seq<char>)
    requires
        !entry.contains(':'),
    ensures
        ({
            let named = entry.len() >= 3 && entry[0] == 'i' && entry[1] == 'd' && entry[2] == '=';
            let value = entry.subrange(3, entry.len() as int);
            &&& named ==> ansi::link_id(entry, 0) == Some(value) && ansi::link_id(
                entry + seq![':'] + rest,
                0,
            ) == Some(value)
            &&& !named ==> ansi::link_id(entry, 0) is None && ansi::link_id(
                entry + seq![':'] + rest,
                0,
            ) == ansi::link_id(rest, 0)
        }),
{
    let n = entry.len() as int;
    assert forall|j: int| 0 <= j < n implies entry[j] != ':' by {
        if entry[j] == ':' {
            assert(entry.contains(':'));
        }
    }
    strings::lemma_find_char(entry, ':', 0);
    assert(entry.subrange(0, n) =~= entry);
    let s = entry + seq![':'] + rest;
    strings::lemma_find_char(s, ':', 0);
    assert(s[n] == ':');
    assert(forall|j: int| 0 <= j < n ==> s[j] == entry[j]);
    assert(strings::find_char(s, ':', 0) == Some(n));
    assert(s.subrange(0, n) =~= entry);
    lemma_id_behind(entry + seq![':'], rest, 0);
}

/// Text that can stand in a command: it ends no command.
pub open spec fn quiet(s: Seq<char>) -> bool {
    forall|k: int| 0 <= k < s.len() ==> #[trigger] s[k] != '\u{1b}' && s[k] != '\u{7}'
}

proof fn lemma_content_end(s: Seq<char>, i: int, e: int)
    requires
        0 <= i <= e < s.len(),
        s[e] == '\u{7}' || ansi::terminator_at(s, e),
        forall|j: int| i <= j < e ==> #[trigger] s[j] != '\u{1b}' && s[j] != '\u{7}',
    ensures
        ansi::osc_content_end(s, i) == e,
    decreases e - i,
{
    if i < e {
        assert(s[i] != '\u{1b}' && s[i] != '\u{7}');
        lemma_content_end(s, i + 1, e);
    }
}

/// A command is read up to a bell, or up to ESC \, and no further.
pub proof fn law_command_ends(content: Seq<char>, rest: Seq<char>)
    requires
        quiet(content),
    ensures
        ({
            let s = content + seq!['\u{7}'] + rest;
            let e = ansi::osc_content_end(s, 0);
            e == content.len() && ansi::osc_next(s, e) == content.len() + 1
        }),
        ({
            let s = content + seq!['\u{1b}', '\\'] + rest;
            let e = ansi::osc_content_end(s, 0);
            e == content.len() && ansi::osc_next(s, e) == content.len() + 2
        }),
{
    let s = content + seq!['\u{7}'] + rest;
    let n = content.len() as int;
    assert(s[n] == '\u{7}');
    assert forall|j: int| 0 <= j < n implies #[trigger] s[j] != '\u{1b}' && s[j] != '\u{7}' by {
        assert(s[j] == content[j]);
    }
    lemma_content_end(s, 0, n);
    let u = content + seq!['\u{1b}', '\\'] + rest;
    assert(u[n] == '\u{1b}' && u[n + 1] == '\\');
    assert forall|j: int| 0 <= j < n implies #[trigger] u[j] != '\u{1b}' && u[j] != '\u{7}' by {
        assert(u[j] == content[j]);
    }
    lemma_content_end(u, 0, n);
}

/// One step over a command that ends with a bell.
proof fn lemma_command_step(s: Seq<char>, i: int, content: Seq<char>, st: ParseState)
    requires
        0 <= i,
        i + 3 + content.len() <= s.len(),
        s[i] == '\u{1b}',
        s[i + 1] == ']',
        s.subrange(i + 2, i + 2 + content.len()) == content,
        s[i + 2 + content.len()] == '\u{7}',
        quiet(content),
    ensures
        ansi::parse_from(s, i, st) == ansi::parse_from(
            s,
            i + 3 + content.len(),
            ParseState {
                link: ansi::osc_applied(st.link, content),
                ..ansi::flushed(st)
            },
        ),
{
    let e = i + 2 + content.len();
    assert forall|j: int| i + 2 <= j < e implies #[trigger] s[j] != '\u{1b}' && s[j]
        != '\u{7}' by {
        assert(s[j] == content[j - i - 2]);
    }
    lemma_content_end(s, i + 2, e);
}

/// A hyperlink that is drawn is read back: the sequence that opens a hyperlink, its text, and the
/// sequence that closes it are read as that text with that hyperlink, and the text behind has none.
pub proof fn law_link_read_back(h: HyperlinkModel, t: Seq<char>, z: Seq<char>)
    requires
        clean(t),
        clean(z),
        t.len() > 0,
        z.len() > 0,
        h.url.len() > 0,
        quiet(h.url),
        h.params matches Some(p) ==> p.len() > 0 && quiet(p) && !p.contains(';') && h.id
            == ansi::link_id(p, 0),
        h.params is None ==> h.id is None,
    ensures
        ansi::parsed(screen::link_opening(h) + t + "\x1b]8;;\x07"@ + z) == Some(
            LineModel {
                segments: seq![
                    segment(t, 0, style::plain_style(), Some(h)),
                    segment(z, strings::byte_len(t), style::plain_style(), None),
                ],
                plain: t + z,
            },
        ),
{
    let none = Seq::<char>::empty();
    let params = match h.params {
        Some(p) => p,
        None => none,
    };
    screen_laws::law_link_opening(h);
    reveal_strlit("\x1b]8;;\x07");
    let opening = screen::link_opening(h);
    let content = seq!['8', ';'] + params + seq![';'] + h.url;
    assert(opening =~= seq!['\u{1b}', ']'] + content + seq!['\u{7}']);
    let closing = "\x1b]8;;\x07"@;
    let last = seq!['8', ';', ';'];
    assert(closing =~= seq!['\u{1b}', ']'] + last + seq!['\u{7}']);
    let s = opening + t + closing + z;
    let st0 = ansi::fresh();
    // The opening sequence.
    assert(s.subrange(2, 2 + content.len() as int) =~= content);
    assert(s[0] == '\u{1b}' && s[1] == ']' && s[2 + content.len() as int] == '\u{7}');
    assert(quiet(content)) by {
        assert forall|k: int| 0 <= k < content.len() implies #[trigger] content[k] != '\u{1b}'
            && content[k] != '\u{7}' by {
            if 2 <= k < 2 + params.len() {
                assert(content[k] == params[k - 2]);
            } else if k >= 3 + params.len() {
                assert(content[k] == h.url[k - 3 - params.len()]);
            }
        }
    }
    lemma_command_step(s, 0, content, st0);
    law_link_command(None, params, h.url);
    if h.params is None {
        strings::lemma_find_char(none, ':', 0);
        assert(none.subrange(0, 0) =~= none);
        assert(ansi::link_id(none, 0) is None);
    }
    let st1 = ParseState { link: ansi::osc_applied(st0.link, content), ..ansi::flushed(st0) };
    assert(st1.link == Some(h));
    let n = opening.len() as int;
    assert(s.subrange(0, n) =~= opening);
    assert(closing =~= seq!['\u{1b}', ']', '8', ';', ';', '\u{7}']);
    lemma_linked_text(s, n, t, z, st1, h);
}

/// The text of a hyperlink, the closing sequence and the text behind it.
proof fn lemma_linked_text(
    s: Seq<char>,
    n: int,
    t: Seq<char>,
    z: Seq<char>,
    st1: ParseState,
    h: HyperlinkModel,
)
    requires
        clean(t),
        clean(z),
        t.len() > 0,
        z.len() > 0,
        0 <= n,
        s == s.subrange(0, n) + t + seq!['\u{1b}', ']', '8', ';', ';', '\u{7}'] + z,
        n <= s.len(),
        st1 == (ParseState { link: Some(h), ..ansi::fresh() }),
    ensures
        ansi::parse_from(s, n, st1) matches Some(st) && st.plain == t + z && st.segments == seq![
            segment(t, 0, style::plain_style(), Some(h)),
            segment(z, strings::byte_len(t), style::plain_style(), None),
        ],
{
    let none = Seq::<char>::empty();
    let last = seq!['8', ';', ';'];
    assert(s.subrange(n, n + t.len()) =~= t);
    lemma_run(s, n, t, st1);
    let st2 = ParseState { text: st1.text + t, plain: st1.plain + t, ..st1 };
    assert(st2.text =~= t && st2.plain =~= t);
    let m = n + t.len();
    assert(s[m] == '\u{1b}' && s[m + 1] == ']' && s[m + 5] == '\u{7}');
    assert(s.subrange(m + 2, m + 2 + last.len()) =~= last);
    lemma_command_step(s, m, last, st2);
    assert(last =~= seq!['8', ';'] + none + seq![';'] + none);
    law_link_command(Some(h), none, none);
    lemma_flushed(st2);
    let st3 = ParseState { link: ansi::osc_applied(st2.link, last), ..ansi::flushed(st2) };
    assert(st3.link is None);
    assert(s.subrange(m + 6, m + 6 + z.len()) =~= z);
    lemma_run(s, m + 6, z, st3);
    let st4 = ParseState { text: st3.text + z, plain: st3.plain + z, ..st3 };
    assert(st4.text =~= z && st4.plain =~= t + z);
    lemma_flushed(st4);
    strings::lemma_encode_concat(t, z);
    assert(ansi::flushed(st4).segments =~= seq![
        segment(t, 0, style::plain_style(), Some(h)),
        segment(z, strings::byte_len(t), style::plain_style(), None),
    ]);
}

/// Carriage returns and bells are left out of the text, and so is a sequence of ESC and one ASCII
/// character that starts neither a control sequence nor a command.
pub proof fn law_left_out(a: Seq<char>, c: char, z: Seq<char>)
    requires
        clean(a),
        clean(z),
        a.len() > 0,
        z.len() > 0,
        (c as u32) < 0x80,
        c != '[',
        c != ']',
    ensures
        ansi::parsed(a + seq!['\r'] + z) matches Some(l) && l.plain == a + z,
        ansi::parsed(a + seq!['\u{7}'] + z) matches Some(l) && l.plain == a + z,
        ansi::parsed(a + seq!['\u{1b}', c] + z) matches Some(l) && l.plain == a + z,
{
    lemma_left_out(a, seq!['\r'], z);
    lemma_left_out(a, seq!['\u{7}'], z);
    lemma_left_out(a, seq!['\u{1b}', c], z);
}

proof fn lemma_left_out(a: Seq<char>, x: Seq<char>, z: Seq<char>)
    requires
        clean(a),
        clean(z),
        a.len() > 0,
        z.len() > 0,
        x.len() == 1 && (x[0] == '\r' || x[0] == '\u{7}') || x.len() == 2 && x[0] == '\u{1b}' && (
        x[1] as u32) < 0x80 && x[1] != '[' && x[1] != ']',
    ensures
        ansi::parsed(a + x + z) matches Some(l) && l.plain == a + z,
{
    let s = a + x + z;
    let n = a.len() as int;
    let st0 = ansi::fresh();
    assert(s.subrange(0, n) =~= a);
    lemma_run(s, 0, a, st0);
    let st1 = ParseState { text: st0.text + a, plain: st0.plain + a, ..st0 };
    assert(st1.plain =~= a);
    assert(s[n] == x[0]);
    assert(x.len() == 2 ==> s[n + 1] == x[1]);
    let st2 = (ansi::parse_step(s, n, st1)->0).0;
    assert(ansi::parse_from(s, n, st1) == ansi::parse_from(s, n + x.len(), st2));
    assert(s.subrange(n + x.len(), n + x.len() + z.len()) =~= z);
    lemma_run(s, (n + x.len()) as int, z, st2);
}

} // verus!
