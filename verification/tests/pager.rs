use lessi::ansi::{parse_content_to_lines, ParsedLine};
use lessi::input::{
    handle_key_event, handle_mouse_event, try_handle_key_event, KeyCode, KeyEvent, MouseEvent,
    MouseEventKind,
};
use lessi::search::SearchMatch;
use lessi::state::{limits_hold, DragState, PagerState, ScrollbarGeometry, SearchMode};

fn state(total: usize, height: usize) -> PagerState {
    assert!(limits_hold(total, height));
    PagerState::new(total, height)
}

fn at(total: usize, height: usize, scroll: usize) -> PagerState {
    let mut s = state(total, height);
    s.scroll_offset = scroll;
    s
}

fn content(lines: &[&str]) -> Vec<ParsedLine> {
    let owned: Vec<String> = lines.iter().map(|s| s.to_string()).collect();
    parse_content_to_lines(&owned)
}

fn key(code: KeyCode) -> KeyEvent {
    KeyEvent { code, ctrl: false, shift: false }
}

fn ctrl(c: char) -> KeyEvent {
    KeyEvent { code: KeyCode::Char(c), ctrl: true, shift: false }
}

/// Presses a key: whether the pager goes on, whether it redraws, and what it opens.
fn press(s: &mut PagerState, lines: &[ParsedLine], k: KeyEvent) -> (bool, bool, Option<String>) {
    let mut redraw = false;
    let mut open = None;
    let running = handle_key_event(k, s, lines, &mut redraw, &mut open);
    (running, redraw, open)
}

fn point(
    s: &mut PagerState,
    kind: MouseEventKind,
    row: usize,
    column: usize,
) -> (bool, Option<String>) {
    let mut redraw = false;
    let mut open = None;
    handle_mouse_event(MouseEvent { kind, row, column }, s, &mut redraw, &mut open);
    (redraw, open)
}

fn current(s: &PagerState) -> Option<usize> {
    match &s.search_mode {
        SearchMode::Active { current_match, .. } => Some(*current_match),
        _ => None,
    }
}

fn linked() -> Vec<ParsedLine> {
    let mut lines = vec!["x".to_string(); 30];
    lines[1] = "\x1b]8;id=a;http://a\x07one\x1b]8;;\x07".to_string();
    lines[3] = "  \x1b]8;id=b;http://b\x07two\x1b]8;;\x07".to_string();
    lines[25] = "\x1b]8;id=c;http://c\x07three\x1b]8;;\x07".to_string();
    parse_content_to_lines(&lines)
}

fn linked_state(lines: &[ParsedLine], height: usize) -> PagerState {
    let mut s = state(lines.len(), height);
    s.last_terminal_width = 80;
    s.rebuild_links(lines);
    s
}

// --- scrolling -------------------------------------------------------------

#[test]
fn scrolling_stays_within_the_text() {
    let mut s = state(100, 20);
    assert_eq!(s.max_scroll(), 80);
    s.scroll_up();
    assert_eq!(s.scroll_offset, 0);
    s.page_down();
    assert_eq!(s.scroll_offset, 20);
    s.half_page_down();
    assert_eq!(s.scroll_offset, 30);
    s.scroll_down();
    assert_eq!(s.scroll_offset, 31);
    s.jump_to_end();
    assert_eq!(s.scroll_offset, 80);
    s.scroll_down();
    s.page_down();
    s.half_page_down();
    assert_eq!(s.scroll_offset, 80);
    s.half_page_up();
    assert_eq!(s.scroll_offset, 70);
    s.page_up();
    assert_eq!(s.scroll_offset, 50);
    s.jump_to_start();
    assert_eq!(s.scroll_offset, 0);
}

#[test]
fn scrolling_back_ends_where_it_began() {
    let mut s = at(100, 20, 37);
    s.scroll_down();
    s.scroll_up();
    assert_eq!(s.scroll_offset, 37);
    s.page_down();
    s.page_up();
    assert_eq!(s.scroll_offset, 37);
    s.half_page_up();
    s.half_page_down();
    assert_eq!(s.scroll_offset, 37);
}

#[test]
fn short_text_does_not_scroll() {
    let mut s = state(5, 20);
    s.page_down();
    s.jump_to_end();
    assert_eq!(s.scroll_offset, 0);
    let mut s = state(5, 0);
    assert_eq!(s.max_scroll(), 4);
    s.jump_to_end();
    assert_eq!(s.scroll_offset, 4);
    assert_eq!(state(0, 10).max_scroll(), 0);
}

#[test]
fn viewport_changes_clamp_the_offset() {
    let mut s = at(100, 20, 80);
    s.update_viewport_height(50);
    assert_eq!(s.scroll_offset, 50);
    let mut s = at(100, 20, 80);
    s.fit_terminal(30, 80, 21);
    assert_eq!((s.total_lines, s.viewport_height, s.scroll_offset), (30, 20, 10));
    assert_eq!((s.last_terminal_width, s.last_terminal_height), (80, 21));
}

#[test]
fn resizing_keeps_the_center() {
    let mut s = at(100, 20, 40);
    assert_eq!(s.center_line(), 50);
    s.resize(10, 50);
    assert_eq!((s.viewport_height, s.scroll_offset), (10, 45));
    s.resize(60, 99);
    assert_eq!(s.scroll_offset, 40);
}

#[test]
fn limits_of_the_machine() {
    assert!(limits_hold(1_000_000_000, 65535));
    assert!(!limits_hold(10, 65536));
    assert!(!limits_hold(usize::MAX, 1));
    assert!(!limits_hold(usize::MAX / 100, 1));
}

// --- scrollbar -------------------------------------------------------------

#[test]
fn scrollbar_knob() {
    let mut s = state(100, 20);
    assert_eq!(s.scrollbar_geometry(), Some(ScrollbarGeometry { knob_start: 0, knob_size: 4 }));
    s.scroll_offset = 80;
    assert_eq!(s.scrollbar_geometry(), Some(ScrollbarGeometry { knob_start: 16, knob_size: 4 }));
    s.scroll_offset = 41;
    assert_eq!(s.scrollbar_geometry(), Some(ScrollbarGeometry { knob_start: 8, knob_size: 4 }));
    assert_eq!(state(20, 20).scrollbar_geometry(), None);
    assert_eq!(state(100_000, 20).scrollbar_geometry().unwrap().knob_size, 1);
    assert_eq!(s.scroll_offset_from_knob_start(0, 4), 0);
    assert_eq!(s.scroll_offset_from_knob_start(16, 4), 80);
    assert_eq!(s.scroll_offset_from_knob_start(99, 4), 80);
    assert_eq!(s.scroll_offset_from_knob_start(3, 4), 15);
    assert_eq!(s.scroll_offset_from_knob_start(3, 20), 41);
    assert_eq!(s.scrollbar_column(), None);
    s.last_terminal_width = 80;
    assert_eq!(s.scrollbar_column(), Some(79));
}

#[test]
fn scrollbar_is_dragged() {
    let mut s = state(100, 20);
    assert!(!s.begin_scrollbar_drag(2));
    assert_eq!(s.drag_state, Some(DragState::Scrollbar { anchor_within_knob: 2 }));
    assert!(s.dragging_scrollbar());
    assert!(s.update_drag(10));
    assert_eq!(s.scroll_offset, 40);
    assert!(s.update_drag(1000));
    assert_eq!(s.scroll_offset, 80);
    assert!(!s.update_drag(1000));
    s.end_drag();
    assert!(!s.is_dragging());
    assert!(!s.update_drag(3));
    // A click beside the knob moves it there.
    assert!(s.begin_scrollbar_drag(0));
    assert_eq!(s.scroll_offset, 0);
    assert_eq!(s.drag_state, Some(DragState::Scrollbar { anchor_within_knob: 2 }));
    let mut short = state(5, 20);
    assert!(!short.begin_scrollbar_drag(0));
    assert!(!short.is_dragging());
}

#[test]
fn text_is_dragged() {
    let mut s = at(100, 20, 30);
    s.begin_content_drag(10);
    assert!(s.update_drag(5));
    assert_eq!(s.scroll_offset, 35);
    assert!(s.update_drag(19));
    assert_eq!(s.scroll_offset, 21);
    assert!(s.update_drag(10));
    assert_eq!(s.scroll_offset, 30);
    assert!(!s.update_drag(10));
    assert!(!s.dragging_scrollbar());
}

// --- search ----------------------------------------------------------------

#[test]
fn a_query_is_typed_and_searched() {
    let lines: Vec<String> = (0..60).map(|i| format!("line {i}")).collect();
    let content = parse_content_to_lines(&lines);
    let mut s = state(60, 10);
    assert_eq!(press(&mut s, &content, key(KeyCode::Char('/'))), (true, true, None));
    for c in "LINE 4x".chars() {
        assert_eq!(press(&mut s, &content, key(KeyCode::Char(c))), (true, true, None));
    }
    assert_eq!(press(&mut s, &content, key(KeyCode::Backspace)), (true, true, None));
    assert_eq!(s.search_input, "LINE 4");
    // Command keys are text while a query is typed.
    assert_eq!(press(&mut s, &content, key(KeyCode::Tab)), (true, false, None));
    assert_eq!(press(&mut s, &content, key(KeyCode::Enter)), (true, true, None));
    match &s.search_mode {
        SearchMode::Active { query, matches, current_match } => {
            assert_eq!(query, "LINE 4");
            assert_eq!(matches.len(), 11);
            assert_eq!(*current_match, 0);
            assert_eq!(matches[1], SearchMatch { line_idx: 40, start: 0, end: 6 });
        }
        _ => panic!("the search should be active"),
    }
    assert_eq!(s.scroll_offset, 0);
    press(&mut s, &content, key(KeyCode::Char('n')));
    assert_eq!((current(&s), s.scroll_offset), (Some(1), 35));
    press(&mut s, &content, key(KeyCode::Char('N')));
    assert_eq!((current(&s), s.scroll_offset), (Some(0), 0));
    press(&mut s, &content, key(KeyCode::Char('N')));
    assert_eq!((current(&s), s.scroll_offset), (Some(10), 44));
    press(&mut s, &content, key(KeyCode::Char('n')));
    assert_eq!(current(&s), Some(0));
    assert_eq!(press(&mut s, &content, key(KeyCode::Esc)), (true, true, None));
    assert_eq!(current(&s), None);
    assert_eq!(s.search_input, "");
}

#[test]
fn searches_that_find_nothing() {
    let content = content(&["a", "b"]);
    let mut s = state(2, 10);
    s.start_search();
    s.search_input = "zz".to_string();
    assert_eq!(press(&mut s, &content, key(KeyCode::Enter)), (true, true, None));
    assert!(matches!(s.search_mode, SearchMode::Normal));
    s.start_search();
    press(&mut s, &content, key(KeyCode::Enter));
    assert!(matches!(s.search_mode, SearchMode::Normal));
    s.start_search();
    assert_eq!(press(&mut s, &content, key(KeyCode::Backspace)), (true, false, None));
    assert_eq!(press(&mut s, &content, key(KeyCode::Esc)), (true, true, None));
    assert!(matches!(s.search_mode, SearchMode::Normal));
}

#[test]
fn searches_that_cannot_be_carried_out() {
    let content = content(&["été"]);
    let mut s = state(1, 10);
    s.start_search();
    s.search_input = "é".to_string();
    let mut redraw = false;
    let mut open = None;
    let r = try_handle_key_event(key(KeyCode::Enter), &mut s, &content, &mut redraw, &mut open);
    assert_eq!(r, None);
    assert!(!redraw);
    assert!(matches!(s.search_mode, SearchMode::EnteringQuery));
    s.search_input = "t".to_string();
    let r = try_handle_key_event(key(KeyCode::Enter), &mut s, &content, &mut redraw, &mut open);
    assert_eq!(r, Some(true));
    assert_eq!(current(&s), Some(0));
}

#[test]
fn results_are_rebuilt() {
    let first = content(&["a", "b", "a", "b", "a"]);
    let mut s = state(5, 10);
    s.start_search();
    s.search_input = "a".to_string();
    s.perform_search(&first);
    s.prev_match();
    assert_eq!(current(&s), Some(2));
    let second = content(&["b", "a", "a", "a"]);
    s.rebuild_search_results(&second, Some(2));
    assert_eq!(current(&s), Some(1));
    s.rebuild_search_results(&second, Some(0));
    assert_eq!(current(&s), Some(0));
    s.next_match();
    s.next_match();
    assert!(s.try_rebuild_search_results(&content(&["a"]), None));
    assert_eq!(current(&s), Some(0));
    assert!(s.try_rebuild_search_results(&content(&["z"]), None));
    assert_eq!(current(&s), None);
    assert!(s.try_rebuild_search_results(&first, None));
    s.search_mode = SearchMode::Active {
        query: "é".to_string(),
        matches: vec![SearchMatch { line_idx: 0, start: 0, end: 2 }],
        current_match: 0,
    };
    assert!(!s.try_rebuild_search_results(&content(&["é"]), None));
    assert_eq!(current(&s), Some(0));
}

// --- links -----------------------------------------------------------------

#[test]
fn focus_moves_between_links() {
    let lines = linked();
    let mut s = linked_state(&lines, 10);
    assert_eq!(s.links.len(), 3);
    assert!(s.focus_next_link());
    assert_eq!(s.focused_link, Some(0));
    assert!(s.focus_next_link());
    assert_eq!(s.focused_link, Some(1));
    assert!(s.focus_next_link());
    assert_eq!((s.focused_link, s.scroll_offset), (Some(2), 16));
    assert!(s.focused_link_visible());
    assert!(s.focus_next_link());
    assert_eq!((s.focused_link, s.scroll_offset), (Some(0), 1));
    assert!(s.focus_prev_link());
    assert_eq!((s.focused_link, s.scroll_offset), (Some(2), 16));
    assert!(s.focus_prev_link());
    assert_eq!((s.focused_link, s.scroll_offset), (Some(1), 3));
    // Out of sight the focus goes to a visible link first.
    s.scroll_offset = 20;
    assert!(!s.focused_link_visible());
    assert_eq!(s.first_visible_link(), Some(2));
    assert_eq!(s.last_visible_link(), Some(2));
    assert!(s.focus_next_link());
    assert_eq!((s.focused_link, s.scroll_offset), (Some(2), 20));
    assert!(!state(5, 5).focus_next_link());
}

#[test]
fn links_are_found_again() {
    let lines = linked();
    let mut s = linked_state(&lines, 10);
    s.focused_link = Some(1);
    s.hovered_link = Some(2);
    let mut other = linked();
    other.remove(1);
    s.rebuild_links(&other);
    assert_eq!((s.focused_link, s.hovered_link), (Some(0), Some(1)));
    assert_eq!(s.current_link_target(), Some("http://b".to_string()));
    assert_eq!(s.hovered_link_target(), Some("http://c".to_string()));
    s.rebuild_links(&content(&["no links"]));
    assert_eq!((s.focused_link, s.hovered_link), (None, None));
}

#[test]
fn links_of_the_same_content_stay() {
    let lines = content(&[
        "\x1b]8;;u\x07xx\x1b]8;;\x07\x1b]8;id=a;u\x07y\x1b]8;;\x07",
        "\x1b]8;;u\x07x\x1b]8;;\x07",
    ]);
    let mut s = state(2, 10);
    s.rebuild_links(&lines);
    let count = s.links.len();
    assert_eq!(count, 4);
    for i in 0..count {
        s.focused_link = Some(i);
        s.hovered_link = Some(count - 1 - i);
        s.rebuild_links(&lines);
        assert_eq!((s.focused_link, s.hovered_link), (Some(i), Some(count - 1 - i)));
        assert_eq!(s.links.len(), count);
    }
}

#[test]
fn links_without_identifier_are_found_by_place() {
    let a = content(&["\x1b]8;;u\x07x\x1b]8;;\x07", "\x1b]8;;u\x07y\x1b]8;;\x07"]);
    let mut s = state(2, 10);
    s.rebuild_links(&a);
    s.focused_link = Some(1);
    s.rebuild_links(&content(&["-", "\x1b]8;;u\x07y\x1b]8;;\x07"]));
    assert_eq!(s.focused_link, Some(0));
    s.rebuild_links(&content(&["-", "-\x1b]8;;u\x07y\x1b]8;;\x07"]));
    assert_eq!(s.focused_link, None);
}

#[test]
fn keys_move_focus_and_open_links() {
    let lines = linked();
    let mut s = linked_state(&lines, 10);
    assert_eq!(press(&mut s, &lines, key(KeyCode::Enter)), (true, false, None));
    assert_eq!(press(&mut s, &lines, key(KeyCode::Tab)), (true, true, None));
    assert_eq!(
        press(&mut s, &lines, key(KeyCode::Enter)),
        (true, false, Some("http://a".to_string()))
    );
    assert_eq!(press(&mut s, &lines, key(KeyCode::BackTab)), (true, true, None));
    assert_eq!(s.focused_link, Some(2));
    let shift_tab = KeyEvent { code: KeyCode::Tab, ctrl: false, shift: true };
    assert_eq!(press(&mut s, &lines, shift_tab), (true, true, None));
    assert_eq!(s.focused_link, Some(1));
}

// --- keys ------------------------------------------------------------------

#[test]
fn keys_scroll() {
    let lines = content(&[]);
    let cases = [
        (key(KeyCode::Down), 41),
        (key(KeyCode::Char('j')), 41),
        (key(KeyCode::Up), 39),
        (key(KeyCode::Char('k')), 39),
        (key(KeyCode::Char('d')), 50),
        (key(KeyCode::Char('u')), 30),
        (key(KeyCode::Char(' ')), 60),
        (key(KeyCode::Char('f')), 60),
        (key(KeyCode::PageDown), 60),
        (key(KeyCode::Char('b')), 20),
        (key(KeyCode::PageUp), 20),
        (key(KeyCode::Home), 0),
        (key(KeyCode::Char('g')), 0),
        (key(KeyCode::End), 80),
        (key(KeyCode::Char('G')), 80),
        (ctrl('f'), 60),
        (ctrl('b'), 20),
        (ctrl('d'), 50),
        (ctrl('u'), 30),
    ];
    for (k, scroll) in cases {
        let mut s = at(100, 20, 40);
        assert_eq!(press(&mut s, &lines, k), (true, true, None));
        assert_eq!(s.scroll_offset, scroll);
    }
    let mut s = at(100, 20, 40);
    assert_eq!(press(&mut s, &lines, ctrl('x')), (true, false, None));
    assert_eq!(press(&mut s, &lines, key(KeyCode::Char('x'))), (true, false, None));
    assert_eq!(press(&mut s, &lines, key(KeyCode::Other)), (true, false, None));
    assert_eq!(s.scroll_offset, 40);
}

#[test]
fn keys_that_end_the_pager() {
    let lines = content(&[]);
    let mut s = state(10, 5);
    assert!(!press(&mut s, &lines, key(KeyCode::Char('q'))).0);
    assert!(!press(&mut s, &lines, key(KeyCode::Esc)).0);
    assert!(!press(&mut s, &lines, ctrl('c')).0);
    assert!(press(&mut s, &lines, ctrl('q')).0);
    s.start_search();
    assert!(press(&mut s, &lines, key(KeyCode::Char('q'))).0);
    assert!(press(&mut s, &lines, ctrl('c')).0);
    assert_eq!(s.search_input, "qc");
}

// --- the pointer -----------------------------------------------------------

#[test]
fn the_wheel_scrolls() {
    let lines = linked();
    let mut s = linked_state(&lines, 10);
    assert_eq!(point(&mut s, MouseEventKind::ScrollDown, 50, 0), (true, None));
    assert_eq!(s.scroll_offset, 1);
    assert_eq!(point(&mut s, MouseEventKind::ScrollUp, 1, 0), (true, None));
    assert_eq!((s.scroll_offset, s.hovered_link), (0, Some(0)));
    assert_eq!(point(&mut s, MouseEventKind::ScrollUp, 1, 0), (false, None));
}

#[test]
fn the_pointer_hovers_and_opens_links() {
    let lines = linked();
    let mut s = linked_state(&lines, 10);
    assert_eq!(point(&mut s, MouseEventKind::Moved, 3, 2), (true, None));
    assert_eq!(s.hovered_link, Some(1));
    assert_eq!(point(&mut s, MouseEventKind::Moved, 3, 3), (false, None));
    assert_eq!(point(&mut s, MouseEventKind::Moved, 3, 9), (true, None));
    assert_eq!(s.hovered_link, None);
    assert_eq!(
        point(&mut s, MouseEventKind::Down, 3, 4),
        (true, Some("http://b".to_string()))
    );
    assert_eq!((s.focused_link, s.hovered_link), (Some(1), Some(1)));
    assert!(!s.is_dragging());
    assert_eq!(point(&mut s, MouseEventKind::Moved, 20, 0), (true, None));
    assert_eq!(s.hovered_link, None);
}

#[test]
fn the_pointer_drags_text() {
    let lines = linked();
    let mut s = linked_state(&lines, 10);
    assert_eq!(point(&mut s, MouseEventKind::Down, 5, 0), (false, None));
    assert!(s.is_dragging());
    assert_eq!(point(&mut s, MouseEventKind::Moved, 3, 2), (false, None));
    assert_eq!(point(&mut s, MouseEventKind::Drag, 2, 0), (true, None));
    assert_eq!(s.scroll_offset, 3);
    assert_eq!(point(&mut s, MouseEventKind::Up, 0, 2), (true, None));
    assert!(!s.is_dragging());
    assert_eq!(s.hovered_link, Some(1));
    // Without a drag, moving with the button pressed hovers.
    assert_eq!(point(&mut s, MouseEventKind::Drag, 20, 0), (true, None));
    assert_eq!(s.hovered_link, None);
    assert_eq!(point(&mut s, MouseEventKind::Other, 0, 0), (false, None));
}

#[test]
fn the_pointer_drags_the_scrollbar() {
    let lines = linked();
    let mut s = linked_state(&lines, 10);
    s.hovered_link = Some(0);
    assert_eq!(point(&mut s, MouseEventKind::Down, 0, 79), (true, None));
    assert!(s.dragging_scrollbar());
    assert_eq!(s.hovered_link, None);
    assert_eq!(point(&mut s, MouseEventKind::Drag, 9, 0), (true, None));
    assert_eq!(s.scroll_offset, 20);
    assert_eq!(point(&mut s, MouseEventKind::Up, 9, 0), (false, None));
    assert!(!s.is_dragging());
    // Below the text nothing is grabbed.
    s.hovered_link = Some(0);
    assert_eq!(point(&mut s, MouseEventKind::Down, 10, 79), (true, None));
    assert!(!s.is_dragging());
}
