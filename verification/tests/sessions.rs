use lessi::ansi::{parse_content_to_lines, ParsedLine};
use lessi::input::{KeyCode, KeyEvent, MouseEvent, MouseEventKind};
use lessi::screen::DrawOp;
use lessi::session::{Action, Event, Session};

fn content(lines: &[&str]) -> Vec<ParsedLine> {
    let owned: Vec<String> = lines.iter().map(|s| s.to_string()).collect();
    parse_content_to_lines(&owned)
}

fn key(code: KeyCode) -> Event {
    Event::Key(KeyEvent { code, ctrl: false, shift: false })
}

fn started(lines: &[&str], height: u16) -> Session {
    let mut s =
        Session::start(content(lines), vec![], Some("name".to_string()), 20, height).unwrap();
    assert_eq!(s.next_action(), Action::Draw);
    assert!(s.try_draw(40, height).is_some());
    s
}

#[test]
fn a_session_starts_with_drawing() {
    let s = Session::start(content(&["a"; 30]), vec![], None, 20, 11).unwrap();
    assert_eq!((s.state.total_lines, s.state.viewport_height, s.state.cell_h), (30, 10, 20));
    assert!(s.needs_redraw && s.running && s.pending_link.is_none());
    let mut s = started(&["a"; 30], 11);
    assert_eq!(s.state.filename.as_deref(), Some("name"));
    assert_eq!(s.next_action(), Action::Read);
    assert_eq!(s.next_action(), Action::Read);
}

#[test]
fn a_session_draws_after_changes() {
    let mut s = started(&["a"; 30], 11);
    assert!(s.try_handle_event(key(KeyCode::Down)));
    assert_eq!(s.state.scroll_offset, 1);
    assert_eq!(s.next_action(), Action::Draw);
    assert_eq!(s.next_action(), Action::Read);
    assert!(s.try_handle_event(Event::Other));
    assert_eq!(s.next_action(), Action::Read);
}

#[test]
fn a_session_ends() {
    let mut s = started(&["a"], 11);
    assert!(s.try_handle_event(key(KeyCode::Char('q'))));
    assert_eq!(s.next_action(), Action::Quit);
    assert!(s.try_handle_event(key(KeyCode::Down)));
    assert_eq!(s.next_action(), Action::Quit);
}

#[test]
fn a_session_opens_links() {
    let mut s = started(&["\x1b]8;id=a;http://u\x07go\x1b]8;;\x07"], 11);
    let click = MouseEvent { kind: MouseEventKind::Down, row: 0, column: 1 };
    assert!(s.try_handle_event(Event::Mouse(click)));
    assert_eq!(s.next_action(), Action::Draw);
    assert_eq!(s.next_action(), Action::Open("http://u".to_string()));
    assert_eq!(s.next_action(), Action::Read);
}

#[test]
fn a_session_is_resized() {
    let mut s = started(&["a"; 100], 21);
    assert!(s.try_handle_event(Event::Resize { height: 11, center: 50 }));
    assert_eq!((s.state.viewport_height, s.state.scroll_offset), (10, 45));
    assert_eq!(s.next_action(), Action::Draw);
    assert!(s.try_handle_event(Event::Resize { height: 0, center: 99 }));
    assert_eq!((s.state.viewport_height, s.state.scroll_offset), (0, 99));
}

#[test]
fn a_session_refuses_what_it_cannot_do() {
    let mut s = started(&["été"], 11);
    assert!(s.try_handle_event(key(KeyCode::Char('/'))));
    assert!(s.try_handle_event(key(KeyCode::Char('é'))));
    assert_eq!(s.next_action(), Action::Draw);
    assert!(!s.try_handle_event(key(KeyCode::Enter)));
    assert_eq!(s.state.search_input, "é");
    assert_eq!(s.next_action(), Action::Read);
}

#[test]
fn a_session_draws_the_screen() {
    let mut s = Session::start(content(&["a", "b"]), vec![], None, 20, 3).unwrap();
    let ops = s.try_draw(20, 3).unwrap();
    let texts: Vec<&str> = ops
        .iter()
        .filter_map(|op| match op {
            DrawOp::Print(t) => Some(t.as_str()),
            _ => None,
        })
        .collect();
    assert_eq!(texts, vec!["a", "b", " 1-2/2 (100%) lessi "]);
    assert!(s.try_draw(20, 0).unwrap().is_empty());
}
