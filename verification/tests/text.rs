use lessi::ansi::{parse_content_to_lines, try_parse_content_to_lines, ParsedLine};
use lessi::chunks::Highlight;
use lessi::links::{collect_links, content_fits_usize, LinkSpan};
use lessi::search::{find_line_matches, find_search_matches, try_find_search_matches, SearchMatch};
use lessi::strings::{char_len, columns_of, slice_text};
use lessi::style::{apply_sgr, map_basic_color, AnsiStyle, Attribute, Color, TextAttributes};
use lessi::text::{decimal_bytes, parse_i64, parse_u32, parse_usize, split_bytes};

fn styled(codes: &str) -> AnsiStyle {
    let mut s = AnsiStyle::plain();
    apply_sgr(codes.as_bytes(), &mut s);
    s
}

fn parse(lines: &[&str]) -> Vec<ParsedLine> {
    let owned: Vec<String> = lines.iter().map(|s| s.to_string()).collect();
    parse_content_to_lines(&owned)
}

fn hl(start: usize, end: usize, current: bool) -> Highlight {
    Highlight { start, end, current }
}

fn found(line_idx: usize, start: usize, end: usize) -> SearchMatch {
    SearchMatch { line_idx, start, end }
}

// --- numbers and bytes -----------------------------------------------------

#[test]
fn numbers_are_read_and_written() {
    assert_eq!(parse_usize(b"007"), Some(7));
    assert_eq!(parse_usize(b"+7"), Some(7));
    assert_eq!(parse_usize(b"18446744073709551616"), None);
    assert_eq!(parse_usize(b""), None);
    assert_eq!(parse_usize(b"1 "), None);
    assert_eq!(parse_u32(b"4294967295"), Some(4294967295));
    assert_eq!(parse_u32(b"4294967296"), None);
    assert_eq!(parse_i64(b"-9223372036854775808"), Some(i64::MIN));
    assert_eq!(parse_i64(b"9223372036854775808"), None);
    assert_eq!(parse_i64(b"-"), None);
    assert_eq!(decimal_bytes(0), b"0".to_vec());
    assert_eq!(decimal_bytes(1203), b"1203".to_vec());
    assert_eq!(split_bytes(b"a;;b", b';'), vec![b"a".to_vec(), b"".to_vec(), b"b".to_vec()]);
}

#[test]
fn characters_have_sizes_and_columns() {
    assert_eq!(char_len('a'), 1);
    assert_eq!(char_len('é'), 2);
    assert_eq!(char_len('漢'), 3);
    assert_eq!(char_len('😀'), 4);
    assert_eq!(columns_of('a'), 1);
    assert_eq!(columns_of('漢'), 2);
    assert_eq!(columns_of('\u{301}'), 0);
    assert_eq!(columns_of('\t'), 0);
    assert_eq!(columns_of('\u{17d8}'), 3);
    assert_eq!(slice_text("aéb", 1, 3), Some("é".to_string()));
    assert_eq!(slice_text("aéb", 1, 2), None);
    assert_eq!(slice_text("aéb", 0, 9), None);
}

// --- styles ----------------------------------------------------------------

#[test]
fn sgr_codes_select_styles() {
    assert_eq!(styled("1;3;4").attributes.attribute_list(), vec![
        Attribute::Bold,
        Attribute::Italic,
        Attribute::Underlined
    ]);
    assert_eq!(styled("31").fg, Some(Color::DarkRed));
    assert_eq!(styled("91").fg, Some(Color::Red));
    assert_eq!(styled("47").bg, Some(Color::Grey));
    assert_eq!(styled("107").bg, Some(Color::White));
    assert_eq!(styled("38;5;200").fg, Some(Color::AnsiValue(200)));
    assert_eq!(styled("48;5;300").bg, Some(Color::AnsiValue(44)));
    assert_eq!(styled("38;2;1;2;300").fg, Some(Color::Rgb { r: 1, g: 2, b: 255 }));
    assert_eq!(styled("38;2;1").fg, Some(Color::Rgb { r: 1, g: 0, b: 0 }));
    assert_eq!(styled("38;2;-5;x;9").fg, Some(Color::Rgb { r: 0, g: 9, b: 0 }));
    assert_eq!(styled("38;5").fg, None);
    assert_eq!(styled("38;7;31").fg, Some(Color::DarkRed));
    assert_eq!(styled("31;39").fg, None);
    assert_eq!(styled("1;2;22"), AnsiStyle::plain());
    assert_eq!(styled("5;6;25"), AnsiStyle::plain());
    assert!(styled("21").attributes.bold);
    assert_eq!(styled("31;1;0"), AnsiStyle::plain());
    assert_eq!(styled("xyz"), AnsiStyle::plain());
    assert_eq!(map_basic_color(9, false), Color::Reset);
}

#[test]
fn sgr_without_codes_resets() {
    let mut s = styled("31;1");
    apply_sgr(b"", &mut s);
    assert_eq!(s, AnsiStyle::plain());
    let mut s = styled("31;1");
    apply_sgr(b"0", &mut s);
    assert_eq!(s, AnsiStyle::plain());
}

#[test]
fn attributes_are_switched_off_again() {
    for (on, off) in [("3", "23"), ("4", "24"), ("7", "27"), ("8", "28"), ("9", "29")] {
        let mut s = styled(on);
        assert_ne!(s, AnsiStyle::plain());
        apply_sgr(off.as_bytes(), &mut s);
        assert_eq!(s, AnsiStyle::plain());
    }
    let mut a = TextAttributes::none();
    a.dim = true;
    a.reset();
    assert_eq!(a, TextAttributes::none());
}

#[test]
fn derived_styles() {
    let base = styled("3;31");
    let h = base.with_highlight(Color::Black, Color::Yellow, true);
    assert_eq!((h.fg, h.bg), (Some(Color::Black), Some(Color::Yellow)));
    assert!(h.attributes.bold && h.attributes.italic);
    let l = base.with_link_style(false, true);
    assert_eq!((l.fg, l.bg), (Some(Color::Blue), Some(Color::Grey)));
    assert!(l.attributes.underlined);
    let f = base.with_link_style(true, true);
    assert_eq!((f.fg, f.bg), (Some(Color::White), Some(Color::Blue)));
    assert_eq!(base.with_link_style(false, false).bg, None);
}

// --- parsing ---------------------------------------------------------------

#[test]
fn lines_are_parsed_into_segments() {
    let line = ParsedLine::from_ansi("ab\x1b[31mré\x1b[0m\rd\x07e\x1b7f\x1b[2Kg");
    assert_eq!(line.plain, "abrédefg");
    let segs: Vec<(&str, usize, usize, Option<Color>)> = line
        .segments
        .iter()
        .map(|s| (s.text.as_str(), s.start, s.end, s.style.fg))
        .collect();
    assert_eq!(segs, vec![
        ("ab", 0, 2, None),
        ("ré", 2, 5, Some(Color::DarkRed)),
        ("de", 5, 7, None),
        ("f", 7, 8, None),
        ("g", 8, 9, None),
    ]);
}

#[test]
fn unstyled_lines_have_one_segment() {
    let line = ParsedLine::from_ansi("plain text");
    assert_eq!(line.plain, "plain text");
    assert_eq!(line.segments.len(), 1);
    assert_eq!(line.segments[0].style, AnsiStyle::plain());
    assert_eq!(ParsedLine::from_ansi("").segments.len(), 0);
}

#[test]
fn hyperlinks_are_parsed() {
    let line = ParsedLine::from_ansi("\x1b]8;a=b:id=x1;http://u\x07L\x1b]8;;\x1b\\M\x1b]8;;http://v\x07N");
    assert_eq!(line.plain, "LMN");
    let h = line.segments[0].hyperlink.as_ref().unwrap();
    assert_eq!(h.url, "http://u");
    assert_eq!(h.id.as_deref(), Some("x1"));
    assert_eq!(h.params_fragment(), "a=b:id=x1");
    assert!(line.segments[1].hyperlink.is_none());
    let h = line.segments[2].hyperlink.as_ref().unwrap();
    assert_eq!(h.url, "http://v");
    assert!(h.id.is_none() && h.params.is_none());
    // Other commands, and commands without a URL part, change nothing.
    let line = ParsedLine::from_ansi("\x1b]8;;u\x07a\x1b]0;t\x07b\x1b]8\x07c");
    assert!(line.segments.iter().all(|s| s.hyperlink.is_some()));
}

#[test]
fn unfinished_sequences_swallow_the_rest() {
    assert_eq!(ParsedLine::from_ansi("a\x1b[12;3").plain, "a");
    assert_eq!(ParsedLine::from_ansi("a\x1b]0;title").plain, "a");
    assert_eq!(ParsedLine::from_ansi("a\x1b").plain, "a");
}

#[test]
fn lines_that_cannot_be_parsed() {
    assert!(ParsedLine::try_from_ansi("\x1bé").is_none());
    assert!(try_parse_content_to_lines(&["ok".to_string(), "\x1bé".to_string()]).is_none());
    assert!(try_parse_content_to_lines(&["ok".to_string()]).is_some());
}

// --- chunks ----------------------------------------------------------------

#[test]
fn chunks_without_highlights_are_the_segments() {
    let line = ParsedLine::from_ansi("ab\x1b[31mcd");
    let chunks = line.to_render_chunks(&vec![]);
    let texts: Vec<&str> = chunks.iter().map(|c| c.text.as_str()).collect();
    assert_eq!(texts, vec!["ab", "cd"]);
}

#[test]
fn highlights_cut_segments() {
    let line = ParsedLine::from_ansi("ab\x1b[31mcdef");
    let chunks = line.to_render_chunks(&vec![hl(1, 3, true), hl(2, 4, false)]);
    let got: Vec<(&str, Option<Color>, bool)> =
        chunks.iter().map(|c| (c.text.as_str(), c.style.bg, c.style.attributes.bold)).collect();
    assert_eq!(got, vec![
        ("a", None, false),
        ("b", Some(Color::Yellow), true),
        ("c", Some(Color::Yellow), true),
        ("d", Some(Color::Cyan), false),
        ("ef", None, false),
    ]);
    let whole: String = chunks.iter().map(|c| c.text.clone()).collect();
    assert_eq!(whole, line.plain);
}

#[test]
fn highlights_inside_characters() {
    let line = ParsedLine::from_ansi("éa");
    assert!(line.try_to_render_chunks(&vec![hl(1, 2, true)]).is_none());
    assert_eq!(line.to_render_chunks(&vec![hl(0, 2, true)]).len(), 2);
}

#[test]
fn overlapping_highlights_keep_the_text() {
    let line = ParsedLine::from_ansi("aé\x1b[31mbc\x1b[0m漢d");
    let highlights = vec![hl(0, 4, true), hl(1, 3, false), hl(3, 8, false), hl(8, 99, false)];
    let chunks = line.try_to_render_chunks(&highlights).unwrap();
    assert!(chunks.iter().all(|c| !c.text.is_empty()));
    let whole: String = chunks.iter().map(|c| c.text.clone()).collect();
    assert_eq!(whole, line.plain);
}

// --- search ----------------------------------------------------------------

#[test]
fn search_ignores_case_and_finds_overlaps() {
    let content = parse(&["Banana", "none", "\x1b[1mANA\x1b[0m"]);
    assert_eq!(find_search_matches("aNa", &content), vec![
        found(0, 1, 4),
        found(0, 3, 6),
        found(2, 0, 3),
    ]);
    assert_eq!(find_search_matches("", &content), vec![]);
    assert_eq!(find_search_matches("zzz", &content), vec![]);
}

#[test]
fn search_in_one_line() {
    assert_eq!(find_line_matches("aaa", "aa", 7, 2), Some(vec![found(7, 0, 2), found(7, 1, 3)]));
    assert_eq!(find_line_matches("xéy", "é", 0, 2), None);
    assert_eq!(find_line_matches("xéy", "y", 0, 1), Some(vec![found(0, 3, 4)]));
    assert_eq!(find_line_matches("abc", "", 0, 0), None);
}

#[test]
fn ascii_text_can_be_searched() {
    let content = parse(&["The QUICK fox[", "~quick~ `", "ZzZ"]);
    assert_eq!(try_find_search_matches("quick", &content), Some(vec![
        found(0, 4, 9),
        found(1, 1, 6),
    ]));
    assert_eq!(try_find_search_matches("zz", &content), Some(vec![
        found(2, 0, 2),
        found(2, 1, 3),
    ]));
    assert_eq!(try_find_search_matches("[", &content), Some(vec![found(0, 13, 14)]));
}

#[test]
fn search_that_would_start_inside_a_character() {
    let content = parse(&["caffè"]);
    assert!(try_find_search_matches("È", &content).is_none());
    assert_eq!(try_find_search_matches("F", &content), Some(vec![found(0, 2, 3), found(0, 3, 4)]));
}

// --- links -----------------------------------------------------------------

#[test]
fn links_with_an_identifier_are_joined() {
    let content = parse(&[
        "x\x1b]8;id=a;http://u\x07漢b\x1b]8;;\x07 \x1b]8;id=a;http://u\x07c\x1b]8;;\x07",
        "\x1b]8;id=a;http://u\x07d\x1b]8;;\x07",
    ]);
    assert!(content_fits_usize(&content));
    let links = collect_links(&content);
    assert_eq!(links.len(), 1);
    assert_eq!(links[0].url, "http://u");
    assert_eq!(links[0].spans, vec![
        LinkSpan { line_idx: 0, start_char: 1, end_char: 3, start_col: 1, end_col: 4 },
        LinkSpan { line_idx: 0, start_char: 4, end_char: 5, start_col: 5, end_col: 6 },
        LinkSpan { line_idx: 1, start_char: 0, end_char: 1, start_col: 0, end_col: 1 },
    ]);
    assert!(links[0].contains_column(0, 3));
    assert!(!links[0].contains_column(0, 4));
    assert!(links[0].intersects_chars(0, 2, 3));
    assert!(!links[0].intersects_chars(1, 1, 3));
    assert!(links[0].visible_in_range(1, 2));
    assert!(!links[0].visible_in_range(2, 9));
    assert_eq!(links[0].line_idx(), 0);
    assert_eq!(links[0].start_char(), 1);
}

#[test]
fn links_without_an_identifier_start_anew() {
    let content = parse(&["\x1b]8;;http://u\x07a\u{301}b\x1b]8;;\x07"]);
    let links = collect_links(&content);
    let spans: Vec<LinkSpan> = links.iter().map(|l| l.spans[0]).collect();
    assert_eq!(spans, vec![
        LinkSpan { line_idx: 0, start_char: 0, end_char: 1, start_col: 0, end_col: 1 },
        LinkSpan { line_idx: 0, start_char: 1, end_char: 2, start_col: 1, end_col: 2 },
        LinkSpan { line_idx: 0, start_char: 2, end_char: 3, start_col: 1, end_col: 2 },
    ]);
}

#[test]
fn no_character_is_in_two_spans() {
    let content = parse(&[
        "a\x1b]8;id=a;u\x07bc\x1b]8;;\x07\x1b]8;id=b;v\x07d\x1b]8;id=a;u\x07e\x1b]8;;w\x07fg\x1b]8;;\x07h",
    ]);
    let links = collect_links(&content);
    let mut ids: Vec<&str> = links.iter().filter_map(|l| l.id.as_deref()).collect();
    ids.sort();
    assert_eq!(ids, vec!["a", "b"]);
    for ch in 0..8 {
        let count = links
            .iter()
            .flat_map(|l| l.spans.iter())
            .filter(|s| s.start_char <= ch && ch < s.end_char)
            .count();
        assert_eq!(count, if ch == 0 || ch == 7 { 0 } else { 1 });
    }
}

#[test]
fn zero_width_characters_extend_spans() {
    let content = parse(&["\x1b]8;id=a;u\x07a\u{301}b\x1b]8;;\x07"]);
    let links = collect_links(&content);
    assert_eq!(links[0].spans, vec![LinkSpan {
        line_idx: 0,
        start_char: 0,
        end_char: 3,
        start_col: 0,
        end_col: 2
    }]);
}
