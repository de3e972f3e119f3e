use lessi::ansi::{parse_content_to_lines, ParsedLine};
use lessi::document::process_input;
use lessi::image::{ImageProtocol, InlineImage};
use lessi::render::{
    collect_highlights, draw_scrollbar, draw_status_line, format_position, format_status,
    render_images, render_pager, try_render_pager,
};
use lessi::screen::{clip_to_width, render_line, truncate_with_padding, DrawOp};
use lessi::search::SearchMatch;
use lessi::state::{PagerState, SearchMode};
use lessi::terminal::{
    direct_output, fits_in_viewport, parse_cell_size_response, parse_less_env, query_cell_size,
    query_cell_size_ioctl, reply_complete, should_page, OutputItem, WindowSize,
};

/// A readable form of drawing operations.
fn show(ops: &[DrawOp]) -> Vec<String> {
    ops.iter()
        .map(|op| match op {
            DrawOp::MoveTo { column, row } => format!("move {column},{row}"),
            DrawOp::ClearLine => "clear".to_string(),
            DrawOp::SetAttribute(a) => format!("{a:?}"),
            DrawOp::ResetColor => "colors".to_string(),
            DrawOp::SetForeground(c) => format!("fg {c:?}"),
            DrawOp::SetBackground(c) => format!("bg {c:?}"),
            DrawOp::Print(s) => format!("print {s}"),
            DrawOp::Raw(d) => format!("raw {}", d.len()),
            DrawOp::Flush => "flush".to_string(),
        })
        .collect()
}

fn printed(ops: &[DrawOp]) -> Vec<String> {
    ops.iter()
        .filter_map(|op| match op {
            DrawOp::Print(s) => Some(s.clone()),
            _ => None,
        })
        .collect()
}

fn content(lines: &[&str]) -> Vec<ParsedLine> {
    let owned: Vec<String> = lines.iter().map(|s| s.to_string()).collect();
    parse_content_to_lines(&owned)
}

fn image(line_idx: usize, height_rows: usize, protocol: ImageProtocol) -> InlineImage {
    InlineImage {
        line_idx,
        col: 3,
        height_rows,
        width_cols: 1,
        data: b"\x1bPq~-~-~-~-~-~\x1b\\".to_vec(),
        protocol,
        sixel_row_count: 6,
        sixel_data_start: 3,
        sixel_row_offsets: vec![4, 6, 8, 10, 12],
        sixel_color_defs: vec![],
    }
}

// --- lines -----------------------------------------------------------------

#[test]
fn text_is_clipped_to_columns() {
    assert_eq!(clip_to_width("abc", 2), ("ab".to_string(), 2, false));
    assert_eq!(clip_to_width("abc", 3), ("abc".to_string(), 3, true));
    assert_eq!(clip_to_width("漢字", 3), ("漢".to_string(), 2, false));
    assert_eq!(clip_to_width("漢", 1), ("".to_string(), 0, false));
    assert_eq!(clip_to_width("", 5), ("".to_string(), 0, true));
    assert_eq!(clip_to_width("abc", 0), ("".to_string(), 0, false));
    assert_eq!(clip_to_width("e\u{301}x", 1), ("e\u{301}".to_string(), 1, false));
}

#[test]
fn text_is_padded_to_columns() {
    assert_eq!(truncate_with_padding("abc", 5), "abc  ");
    assert_eq!(truncate_with_padding("abcdef", 5), "abcde");
    assert_eq!(truncate_with_padding("漢字", 3), "漢 ");
    assert_eq!(truncate_with_padding("abc", 0), "");
}

#[test]
fn a_line_is_drawn() {
    let lines = content(&["a\x1b[1;31mbcd"]);
    let ops = render_line(&lines[0], 0, &vec![], 3, None, None);
    assert_eq!(show(&ops), vec![
        "Reset", "colors", "fg Reset", "bg Reset", "print a", "Reset", "colors", "fg DarkRed",
        "bg Reset", "Bold", "print bc", "Reset", "colors",
    ]);
    assert!(render_line(&lines[0], 0, &vec![], 0, None, None).is_empty());
}

#[test]
fn links_are_drawn_as_links() {
    let lines = content(&["\x1b]8;id=a;http://u\x07go\x1b]8;;\x07"]);
    let mut s = PagerState::new(1, 5);
    s.rebuild_links(&lines);
    let ops = render_line(&lines[0], 0, &vec![], 10, None, None);
    assert_eq!(show(&ops), vec![
        "Reset", "colors", "fg Blue", "bg Reset", "Underlined",
        "print \x1b]8;id=a;http://u\x07", "print go", "print \x1b]8;;\x07", "Reset", "colors",
    ]);
    s.focused_link = Some(0);
    let ops = render_line(&lines[0], 0, &vec![], 10, s.focused_link(), None);
    assert_eq!(show(&ops)[2..4], ["fg White", "bg Blue"]);
    let ops = render_line(&lines[0], 0, &vec![], 10, None, s.focused_link());
    assert_eq!(show(&ops)[2..4], ["fg Blue", "bg Grey"]);
    let ops = render_line(&lines[0], 7, &vec![], 10, s.focused_link(), None);
    assert_eq!(show(&ops)[2..4], ["fg Blue", "bg Reset"]);
}

#[test]
fn highlights_are_sorted_by_start() {
    let m = |line_idx: usize, start: usize| SearchMatch { line_idx, start, end: start + 1 };
    let mode = SearchMode::Active {
        query: "x".to_string(),
        matches: vec![m(1, 5), m(0, 9), m(1, 2), m(1, 5)],
        current_match: 2,
    };
    let got: Vec<(usize, bool)> =
        collect_highlights(&mode, 1).iter().map(|h| (h.start, h.current)).collect();
    assert_eq!(got, vec![(2, true), (5, false), (5, false)]);
    assert!(collect_highlights(&SearchMode::Normal, 1).is_empty());
}

// --- status line and scrollbar ---------------------------------------------

#[test]
fn positions_are_formatted() {
    let mut s = PagerState::new(100, 20);
    assert_eq!(format_position(&s), " 1-20/100 (0%)");
    s.scroll_offset = 40;
    assert_eq!(format_position(&s), " 41-60/100 (50%)");
    s.scroll_offset = 80;
    assert_eq!(format_position(&s), " 81-100/100 (100%)");
    assert_eq!(format_position(&PagerState::new(3, 20)), " 1-3/3 (100%)");
    assert_eq!(format_position(&PagerState::new(0, 20)), " (empty)");
}

#[test]
fn status_texts() {
    let mut s = PagerState::new(3, 20);
    let keys = "-- q: quit, j/k/↑/↓: scroll, d/u: half-page, /: search";
    assert_eq!(format_status(&s), format!(" 1-3/3 (100%) lessi {keys}"));
    s.filename = Some("notes.txt".to_string());
    assert_eq!(format_status(&s), format!(" 1-3/3 (100%) notes.txt {keys}"));
    s.start_search();
    s.search_input = "abc".to_string();
    assert_eq!(format_status(&s), "/abc");
    s.search_mode = SearchMode::Active {
        query: "abc".to_string(),
        matches: vec![SearchMatch { line_idx: 0, start: 0, end: 3 }; 12],
        current_match: 9,
    };
    assert_eq!(
        format_status(&s),
        " 1-3/3 (100%) -- Searching: 'abc' (10/12) -- n/N: next/prev, Esc: clear"
    );
    s.clear_search();
    s.start_search();
    s.rebuild_links(&content(&["\x1b]8;id=a;http://u\x07go\x1b]8;;\x07"]));
    s.hovered_link = Some(0);
    assert_eq!(format_status(&s), "/ -- Link: http://u");
    assert_eq!(show(&draw_status_line(&s, 8, 4)), vec![
        "move 0,4", "clear", "Reverse", "print / -- Lin", "Reset", "colors",
    ]);
}

#[test]
fn the_scrollbar_is_drawn() {
    let mut s = PagerState::new(8, 4);
    s.scroll_offset = 4;
    assert_eq!(show(&draw_scrollbar(&s, 9)), vec![
        "move 9,0", "print  ", "move 9,1", "print  ", "move 9,2", "Reverse", "print  ", "NoReverse",
        "move 9,3", "Reverse", "print  ", "NoReverse", "move 9,4", "print  ",
    ]);
    assert!(draw_scrollbar(&PagerState::new(4, 4), 9).is_empty());
}

// --- images ----------------------------------------------------------------

#[test]
fn visible_images_are_drawn() {
    let whole = image(5, 2, ImageProtocol::Sixel);
    let size = whole.data.len();
    let ops = render_images(&[whole], 4, 10, 18);
    let expected = [
        "move 3,1".to_string(),
        "flush".to_string(),
        format!("raw {size}"),
        "Reset".to_string(),
        "colors".to_string(),
    ];
    assert_eq!(show(&ops), expected);
    assert!(render_images(&[image(5, 2, ImageProtocol::Sixel)], 7, 10, 18).is_empty());
    assert!(render_images(&[image(5, 2, ImageProtocol::Sixel)], 6, 0, 18).is_empty());
}

#[test]
fn partly_visible_sixel_images_are_clipped() {
    let ops = render_images(&[image(5, 2, ImageProtocol::Sixel)], 6, 10, 18);
    assert_eq!(show(&ops)[0], "move 3,0");
    match &ops[2] {
        DrawOp::Raw(d) => assert_eq!(d, &b"\x1bPq~-~-~\x1b\\".to_vec()),
        _ => panic!("image data expected"),
    }
}

#[test]
fn partly_visible_kitty_images_are_left_out() {
    let ops = render_images(&[image(5, 2, ImageProtocol::Kitty)], 6, 10, 18);
    assert_eq!(show(&ops), vec!["Reset", "colors"]);
}

// --- the screen ------------------------------------------------------------

#[test]
fn the_screen_is_drawn() {
    let lines = content(&["one", "two", "three"]);
    let mut s = PagerState::new(3, 2);
    s.last_terminal_height = 5;
    let ops = render_pager(&lines, &[], &mut s, 10, 3);
    assert_eq!((s.viewport_height, s.last_terminal_width, s.last_terminal_height), (2, 10, 3));
    assert_eq!(show(&ops)[..2], ["move 0,0", "clear"]);
    assert_eq!(printed(&ops), vec!["one", "two", " ", " ", " ", " 1-2/3 (0%"]);
    let tail: Vec<String> = show(&ops).into_iter().rev().take(6).collect();
    assert_eq!(tail, vec!["flush", "flush", "clear", "move 0,4", "clear", "move 0,3"]);
}

#[test]
fn a_terminal_without_rows_gets_nothing() {
    let lines = content(&["one"]);
    let mut s = PagerState::new(1, 2);
    assert!(render_pager(&lines, &[], &mut s, 10, 0).is_empty());
    assert_eq!(s.viewport_height, 2);
}

#[test]
fn screens_with_images() {
    let (cleaned, images) = process_input("a\n\x1b_Gc=2,r=2;\x1b\\\nb", 8, 16);
    let lines = parse_content_to_lines(&cleaned);
    let mut s = PagerState::new(lines.len(), 5);
    let ops = render_pager(&lines, &images, &mut s, 20, 6);
    let tail: Vec<String> = show(&ops).into_iter().rev().take(7).collect();
    assert_eq!(tail, vec![
        "flush", "colors", "Reset", "raw 13", "flush", "move 0,1", "flush",
    ]);
}

#[test]
fn screens_that_cannot_be_drawn() {
    let lines = content(&["é"]);
    let mut s = PagerState::new(1, 5);
    s.search_mode = SearchMode::Active {
        query: "x".to_string(),
        matches: vec![SearchMatch { line_idx: 0, start: 1, end: 2 }],
        current_match: 0,
    };
    assert!(try_render_pager(&lines, &[], &mut s, 20, 6).is_none());
    let mut s = PagerState::new(1, 5);
    let huge = image(0, usize::MAX, ImageProtocol::Sixel);
    assert!(try_render_pager(&lines, &[huge], &mut s, 20, 6).is_some());
    let past = image(1, usize::MAX, ImageProtocol::Sixel);
    assert!(try_render_pager(&lines, &[past], &mut s, 20, 6).is_none());
}

// --- the terminal ----------------------------------------------------------

#[test]
fn cell_sizes() {
    let unknown = WindowSize { rows: 24, cols: 80, xpixel: 0, ypixel: 0 };
    let known = WindowSize { rows: 24, cols: 80, xpixel: 805, ypixel: 480 };
    assert_eq!(query_cell_size_ioctl(&[unknown, known]), Some((10, 20)));
    assert_eq!(query_cell_size_ioctl(&[unknown]), None);
    assert_eq!(query_cell_size(&[known], None), (10, 20));
    assert_eq!(query_cell_size(&[unknown], Some(b"\x1b[6;18;9t")), (9, 18));
    assert_eq!(query_cell_size(&[unknown], Some(b"?")), (8, 16));
    assert_eq!(query_cell_size(&[], None), (8, 16));
}

#[test]
fn cell_size_reports() {
    assert_eq!(parse_cell_size_response(b"xx\x1b[6;20;10tyy"), Some((10, 20)));
    assert_eq!(parse_cell_size_response(b"\x1b[6;20;10;7t"), Some((10, 20)));
    assert_eq!(parse_cell_size_response(b"\x1b[6;0;10t"), None);
    assert_eq!(parse_cell_size_response(b"\x1b[4;20;10t"), None);
    assert_eq!(parse_cell_size_response(b"\x1b[6;20t"), None);
    assert_eq!(parse_cell_size_response(b"\x1b[6;20;10"), None);
    assert_eq!(parse_cell_size_response(b"\x1bX6;20;10t"), None);
    assert_eq!(parse_cell_size_response(b"\x1b[6;20;10;\xfft"), None);
    assert_eq!(parse_cell_size_response(b""), None);
}

#[test]
fn the_end_of_a_report() {
    assert!(reply_complete(b"\x1b[6;20;10t"));
    assert!(!reply_complete(b"\x1b[6;20;10"));
    assert!(!reply_complete(b""));
}

#[test]
fn environment_flags() {
    assert_eq!(parse_less_env(None), (false, false));
    assert_eq!(parse_less_env(Some("")), (false, false));
    assert_eq!(parse_less_env(Some("RF")), (true, false));
    assert_eq!(parse_less_env(Some("-X")), (false, true));
    assert_eq!(parse_less_env(Some("XrF?")), (true, true));
}

#[test]
fn paging_decisions() {
    assert!(fits_in_viewport(23, Some(24)));
    assert!(!fits_in_viewport(24, Some(24)));
    assert!(fits_in_viewport(0, Some(0)));
    assert!(!fits_in_viewport(1, None));
    assert!(should_page(true, false, true));
    assert!(should_page(true, true, false));
    assert!(!should_page(true, true, true));
    assert!(!should_page(false, false, false));
}

#[test]
fn output_without_paging() {
    let images = [
        image(1, 1, ImageProtocol::Kitty),
        image(1, 2, ImageProtocol::Kitty),
        image(3, 1, ImageProtocol::Kitty),
    ];
    assert_eq!(direct_output(4, &images, true), vec![
        OutputItem::Line(0),
        OutputItem::Line(1),
        OutputItem::Image(0),
        OutputItem::Image(1),
        OutputItem::Line(2),
        OutputItem::Line(3),
        OutputItem::Image(2),
    ]);
    assert_eq!(direct_output(2, &images, false), vec![OutputItem::Line(0), OutputItem::Line(1)]);
    assert!(direct_output(0, &images, true).is_empty());
}
