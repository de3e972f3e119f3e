//! What keys and the pointer do.
use vstd::prelude::*;
use vstd::string::*;
use vstd::utf8::*;
use crate::ansi;
use crate::ansi::ParsedLine;
use crate::links;
use crate::navigation;
use crate::search;
use crate::search::{try_find_search_matches, SearchMatch};
use crate::state;
use crate::state::{DragState, PagerState, SearchMode, StateModel};

verus! {

/// A key.
#[derive(Clone, Copy, Debug, PartialEq, Eq, Structural)]
pub enum KeyCode {
    Char(char),
    Enter,
    Esc,
    Backspace,
    Tab,
    BackTab,
    Up,
    Down,
    PageUp,
    PageDown,
    Home,
    End,
    Other,
}

/// A key that was pressed, with its modifiers.
#[derive(Clone, Copy, Debug, PartialEq, Eq, Structural)]
pub struct KeyEvent {
    pub code: KeyCode,
    pub ctrl: bool,
    pub shift: bool,
}

/// What the pointer did.
#[derive(Clone, Copy, Debug, PartialEq, Eq, Structural)]
pub enum MouseEventKind {
    ScrollUp,
    ScrollDown,
    /// The left button was pressed.
    Down,
    /// A button was released.
    Up,
    /// The pointer moved with the left button pressed.
    Drag,
    /// The pointer moved with no button pressed.
    Moved,
    Other,
}

/// What the pointer did, and where.
#[derive(Clone, Copy, Debug, PartialEq, Eq, Structural)]
pub struct MouseEvent {
    pub kind: MouseEventKind,
    pub row: usize,
    pub column: usize,
}

/// What an event leads to: the next state, whether the pager goes on, whether the screen is to be
/// drawn again, and a link to open.
#[verifier::ext_equal]
pub struct Step {
    pub state: StateModel,
    pub running: bool,
    pub redraw: bool,
    pub open: Option<Seq<char>>,
}

/// A step to `m` that draws the screen again.
pub open spec fn drawn(m: StateModel) -> Step {
    Step { state: m, running: true, redraw: true, open: None }
}

/// A step that changes nothing.
pub open spec fn ignored(m: StateModel) -> Step {
    Step { state: m, running: true, redraw: false, open: None }
}

/// A step that ends the pager.
pub open spec fn quit(m: StateModel) -> Step {
    Step { state: m, running: false, redraw: false, open: None }
}

// ---------------------------------------------------------------------------
// Keys
// ---------------------------------------------------------------------------

/// What a key does while a query is being typed; `found` are the matches of the query.
pub open spec fn typing_step(m: StateModel, code: KeyCode, found: Seq<SearchMatch>) -> Step {
    match code {
        KeyCode::Enter => drawn(navigation::search_performed(m, found)),
        KeyCode::Esc => drawn(navigation::search_cleared(m)),
        KeyCode::Backspace => if m.input.len() > 0 {
            drawn(StateModel { input: m.input.drop_last(), ..m })
        } else {
            ignored(m)
        },
        KeyCode::Char(c) => drawn(StateModel { input: m.input.push(c), ..m }),
        _ => ignored(m),
    }
}

/// What a key does together with the control key.
pub open spec fn control_step(m: StateModel, code: KeyCode) -> Step {
    match code {
        KeyCode::Char(c) => if c == 'c' {
            quit(m)
        } else if c == 'f' {
            drawn(state::paged_down(m))
        } else if c == 'b' {
            drawn(state::paged_up(m))
        } else if c == 'd' {
            drawn(state::half_paged_down(m))
        } else if c == 'u' {
            drawn(state::half_paged_up(m))
        } else {
            ignored(m)
        },
        _ => ignored(m),
    }
}

/// A step that moves the focus to `target`.
pub open spec fn focus_step(m: StateModel, target: Option<int>) -> Step {
    Step {
        state: navigation::focus_moved(m, target),
        running: true,
        redraw: navigation::focus_changes(m, target),
        open: None,
    }
}

/// What a character key does.
pub open spec fn char_step(m: StateModel, c: char) -> Step {
    if c == 'q' {
        quit(m)
    } else if c == '/' {
        drawn(navigation::search_started(m))
    } else if c == 'n' {
        drawn(navigation::next_match_selected(m))
    } else if c == 'N' {
        drawn(navigation::prev_match_selected(m))
    } else if c == 'j' {
        drawn(state::scrolled_down(m))
    } else if c == 'k' {
        drawn(state::scrolled_up(m))
    } else if c == 'd' {
        drawn(state::half_paged_down(m))
    } else if c == 'u' {
        drawn(state::half_paged_up(m))
    } else if c == ' ' || c == 'f' {
        drawn(state::paged_down(m))
    } else if c == 'b' {
        drawn(state::paged_up(m))
    } else if c == 'g' {
        drawn(state::at_start(m))
    } else if c == 'G' {
        drawn(state::at_end(m))
    } else {
        ignored(m)
    }
}

/// What a key does while no query is being typed.
pub open spec fn command_step(m: StateModel, code: KeyCode, shift: bool) -> Step {
    match code {
        KeyCode::Char(c) => char_step(m, c),
        KeyCode::Esc => if m.search is Active {
            drawn(navigation::search_cleared(m))
        } else {
            quit(m)
        },
        KeyCode::Tab => if shift {
            focus_step(m, navigation::prev_link(m))
        } else {
            focus_step(m, navigation::next_link(m))
        },
        KeyCode::BackTab => focus_step(m, navigation::prev_link(m)),
        KeyCode::Enter => Step { open: navigation::focused_url(m), ..ignored(m) },
        KeyCode::Down => drawn(state::scrolled_down(m)),
        KeyCode::Up => drawn(state::scrolled_up(m)),
        KeyCode::PageDown => drawn(state::paged_down(m)),
        KeyCode::PageUp => drawn(state::paged_up(m)),
        KeyCode::Home => drawn(state::at_start(m)),
        KeyCode::End => drawn(state::at_end(m)),
        KeyCode::Backspace => ignored(m),
        KeyCode::Other => ignored(m),
    }
}

/// What a key does; `found` are the matches of the query that is being typed.
pub open spec fn key_step(m: StateModel, key: KeyEvent, found: Seq<SearchMatch>) -> Step {
    if m.search is EnteringQuery {
        typing_step(m, key.code, found)
    } else if key.ctrl {
        control_step(m, key.code)
    } else {
        command_step(m, key.code, key.shift)
    }
}

/// Whether a key starts the search for the typed query.
pub open spec fn starts_search(m: StateModel, key: KeyEvent) -> bool {
    m.search is EnteringQuery && key.code == KeyCode::Enter
}

/// The matches of the typed query.
pub open spec fn typed_matches(m: StateModel, content: Seq<ParsedLine>) -> Seq<SearchMatch> {
    search::search_matches(m.input, search::plain_texts(content))->0
}

/// A link to open after a step: a new one, or the one that was to be opened before.
pub open spec fn opened(step: Step, before: Option<Seq<char>>) -> Option<Seq<char>> {
    match step.open {
        Some(url) => Some(url),
        None => before,
    }
}

fn handle_typing_key(code: KeyCode, state: &mut PagerState, needs_redraw: &mut bool)
    requires
        old(state).wf(),
        code != KeyCode::Enter,
    ensures
        ({
            let step = typing_step(old(state)@, code, seq![]);
            &&& final(state)@ == step.state
            &&& final(state).wf()
            &&& *final(needs_redraw) == (*old(needs_redraw) || step.redraw)
            &&& step.running
            &&& step.open is None
        }),
{
    match code {
        KeyCode::Esc => {
            state.clear_search();
            *needs_redraw = true;
        },
        KeyCode::Backspace => {
            if state.search_input.pop().is_some() {
                *needs_redraw = true;
            }
        },
        KeyCode::Char(c) => {
            state.search_input.push(c);
            *needs_redraw = true;
        },
        _ => {},
    }
}

fn handle_control_key(code: KeyCode, state: &mut PagerState, needs_redraw: &mut bool) -> (r: bool)
    requires
        old(state).wf(),
    ensures
        ({
            let step = control_step(old(state)@, code);
            &&& final(state)@ == step.state
            &&& final(state).wf()
            &&& *final(needs_redraw) == (*old(needs_redraw) || step.redraw)
            &&& r == step.running
            &&& step.open is None
        }),
{
    match code {
        KeyCode::Char(c) => {
            if c == 'c' {
                return false;
            } else if c == 'f' {
                state.page_down();
                *needs_redraw = true;
            } else if c == 'b' {
                state.page_up();
                *needs_redraw = true;
            } else if c == 'd' {
                state.half_page_down();
                *needs_redraw = true;
            } else if c == 'u' {
                state.half_page_up();
                *needs_redraw = true;
            }
        },
        _ => {},
    }
    true
}

fn handle_char_key(c: char, state: &mut PagerState, needs_redraw: &mut bool) -> (r: bool)
    requires
        old(state).wf(),
    ensures
        ({
            let step = char_step(old(state)@, c);
            &&& final(state)@ == step.state
            &&& final(state).wf()
            &&& *final(needs_redraw) == (*old(needs_redraw) || step.redraw)
            &&& r == step.running
            &&& step.open is None
        }),
{
    if c == 'q' {
        return false;
    }
    if c == '/' {
        state.start_search();
    } else if c == 'n' {
        state.next_match();
    } else if c == 'N' {
        state.prev_match();
    } else if c == 'j' {
        state.scroll_down();
    } else if c == 'k' {
        state.scroll_up();
    } else if c == 'd' {
        state.half_page_down();
    } else if c == 'u' {
        state.half_page_up();
    } else if c == ' ' || c == 'f' {
        state.page_down();
    } else if c == 'b' {
        state.page_up();
    } else if c == 'g' {
        state.jump_to_start();
    } else if c == 'G' {
        state.jump_to_end();
    } else {
        return true;
    }
    *needs_redraw = true;
    true
}

fn handle_command_key(
    code: KeyCode,
    shift: bool,
    state: &mut PagerState,
    needs_redraw: &mut bool,
    link_to_open: &mut Option<String>,
) -> (r: bool)
    requires
        old(state).wf(),
    ensures
        ({
            let step = command_step(old(state)@, code, shift);
            &&& final(state)@ == step.state
            &&& final(state).wf()
            &&& *final(needs_redraw) == (*old(needs_redraw) || step.redraw)
            &&& r == step.running
            &&& ansi::opt_text(*final(link_to_open)) == opened(
                step,
                ansi::opt_text(*old(link_to_open)),
            )
        }),
{
    match code {
        KeyCode::Char(c) => {
            return handle_char_key(c, state, needs_redraw);
        },
        KeyCode::Esc => {
            let active = match &state.search_mode {
                SearchMode::Active { .. } => true,
                _ => false,
            };
            if !active {
                return false;
            }
            state.clear_search();
            *needs_redraw = true;
        },
        KeyCode::Tab => {
            let changed = if shift {
                state.focus_prev_link()
            } else {
                state.focus_next_link()
            };
            if changed {
                *needs_redraw = true;
            }
        },
        KeyCode::BackTab => {
            if state.focus_prev_link() {
                *needs_redraw = true;
            }
        },
        KeyCode::Enter => {
            if let Some(target) = state.current_link_target() {
                *link_to_open = Some(target);
            }
        },
        KeyCode::Down => {
            state.scroll_down();
            *needs_redraw = true;
        },
        KeyCode::Up => {
            state.scroll_up();
            *needs_redraw = true;
        },
        KeyCode::PageDown => {
            state.page_down();
            *needs_redraw = true;
        },
        KeyCode::PageUp => {
            state.page_up();
            *needs_redraw = true;
        },
        KeyCode::Home => {
            state.jump_to_start();
            *needs_redraw = true;
        },
        KeyCode::End => {
            state.jump_to_end();
            *needs_redraw = true;
        },
        KeyCode::Backspace => {},
        KeyCode::Other => {},
    }
    true
}

fn entering_query(state: &PagerState) -> (r: bool)
    ensures
        r == (state@.search is EnteringQuery),
{
    match &state.search_mode {
        SearchMode::EnteringQuery => true,
        _ => false,
    }
}

/// Handles a key. Returns whether the pager goes on.
pub fn handle_key_event(
    key_event: KeyEvent,
    state: &mut PagerState,
    content: &[ParsedLine],
    needs_redraw: &mut bool,
    link_to_open: &mut Option<String>,
) -> (r: bool)
    requires
        old(state).wf(),
        starts_search(old(state)@, key_event) ==> navigation::can_search(old(state)@, content@),
    ensures
        ({
            let step = key_step(
                old(state)@,
                key_event,
                typed_matches(old(state)@, content@),
            );
            &&& final(state)@ == step.state
            &&& final(state).wf()
            &&& *final(needs_redraw) == (*old(needs_redraw) || step.redraw)
            &&& r == step.running
            &&& ansi::opt_text(*final(link_to_open)) == opened(
                step,
                ansi::opt_text(*old(link_to_open)),
            )
        }),
{
    if entering_query(state) {
        match key_event.code {
            KeyCode::Enter => {
                state.perform_search(content);
                *needs_redraw = true;
            },
            code => {
                handle_typing_key(code, state, needs_redraw);
            },
        }
        return true;
    }
    if key_event.ctrl {
        return handle_control_key(key_event.code, state, needs_redraw);
    }
    handle_command_key(key_event.code, key_event.shift, state, needs_redraw, link_to_open)
}

/// `handle_key_event`, unless the key starts a search that cannot be carried out: then nothing is
/// changed, and the result is `None`.
pub fn try_handle_key_event(
    key_event: KeyEvent,
    state: &mut PagerState,
    content: &[ParsedLine],
    needs_redraw: &mut bool,
    link_to_open: &mut Option<String>,
) -> (r: Option<bool>)
    requires
        old(state).wf(),
    ensures
        r is None == (starts_search(old(state)@, key_event) && !navigation::can_search(
            old(state)@,
            content@,
        )),
        final(state).wf(),
        match r {
            Some(running) => {
                let step = key_step(
                    old(state)@,
                    key_event,
                    typed_matches(old(state)@, content@),
                );
                &&& final(state)@ == step.state
                &&& *final(needs_redraw) == (*old(needs_redraw) || step.redraw)
                &&& running == step.running
                &&& ansi::opt_text(*final(link_to_open)) == opened(
                    step,
                    ansi::opt_text(*old(link_to_open)),
                )
            },
            None => {
                &&& *final(state) == *old(state)
                &&& *final(needs_redraw) == *old(needs_redraw)
                &&& *final(link_to_open) == *old(link_to_open)
            },
        },
{
    if entering_query(state) && key_event.code == KeyCode::Enter {
        if try_find_search_matches(state.search_input.as_str(), content).is_none() {
            return None;
        }
    }
    Some(handle_key_event(key_event, state, content, needs_redraw, link_to_open))
}

// ---------------------------------------------------------------------------
// The pointer
// ---------------------------------------------------------------------------

/// The state with the pointer at a place: the link there is hovered; below the text there is none.
pub open spec fn pointed_at(m: StateModel, row: int, column: int) -> StateModel {
    if row < m.height {
        navigation::link_hovered(m, m.scroll + row, column)
    } else {
        navigation::hover_cleared(m)
    }
}

/// A step to `n` that draws the screen again if the text was scrolled or the hover changed.
pub open spec fn moved_step(m: StateModel, n: StateModel) -> Step {
    Step {
        state: n,
        running: true,
        redraw: n.scroll != m.scroll || n.hovered != m.hovered,
        open: None,
    }
}

/// Whether a place is on the scrollbar.
pub open spec fn on_scrollbar(m: StateModel, column: int) -> bool {
    m.last_terminal_width > 0 && column == m.last_terminal_width - 1 && state::geometry(m) is Some
}

/// What pressing the left button does: it grabs the scrollbar, opens a link, or grabs the text.
pub open spec fn press_step(m: StateModel, row: int, column: int) -> Step {
    let free = StateModel { drag: None, ..m };
    if row >= m.height {
        moved_step(m, navigation::hover_cleared(free))
    } else if on_scrollbar(m, column) {
        moved_step(m, navigation::hover_cleared(state::scrollbar_grabbed(free, row)))
    } else {
        let line = m.scroll + row;
        let hovered = navigation::link_hovered(free, line, column);
        match navigation::link_at(m.links, line, column, 0) {
            Some(i) => Step {
                state: navigation::link_clicked(hovered, line, column),
                running: true,
                redraw: true,
                open: Some(m.links[i as int].url),
            },
            None => moved_step(
                m,
                StateModel {
                    drag: Some(
                        DragState::Content {
                            origin_row: row as usize,
                            origin_scroll_offset: m.scroll as usize,
                        },
                    ),
                    ..hovered
                },
            ),
        }
    }
}

/// What the pointer does.
pub open spec fn mouse_step(m: StateModel, e: MouseEvent) -> Step {
    let (row, column) = (e.row as int, e.column as int);
    let scrollbar = m.drag matches Some(DragState::Scrollbar { .. });
    match e.kind {
        MouseEventKind::ScrollUp => moved_step(m, pointed_at(state::scrolled_up(m), row, column)),
        MouseEventKind::ScrollDown => moved_step(
            m,
            pointed_at(state::scrolled_down(m), row, column),
        ),
        MouseEventKind::Down => press_step(m, row, column),
        MouseEventKind::Moved => if m.drag is Some {
            ignored(m)
        } else {
            moved_step(m, pointed_at(m, row, column))
        },
        MouseEventKind::Drag => if m.drag is None {
            moved_step(m, pointed_at(m, row, column))
        } else if scrollbar {
            moved_step(m, navigation::hover_cleared(state::dragged(m, row)))
        } else {
            moved_step(m, state::dragged(m, row))
        },
        MouseEventKind::Up => {
            let free = StateModel { drag: None, ..m };
            if scrollbar {
                moved_step(m, navigation::hover_cleared(free))
            } else {
                moved_step(m, pointed_at(free, row, column))
            }
        },
        MouseEventKind::Other => ignored(m),
    }
}

/// Hovers the link at a place. Returns whether the hover changed.
fn point_at(state: &mut PagerState, row: usize, column: usize) -> (r: bool)
    requires
        old(state).wf(),
    ensures
        final(state)@ == pointed_at(old(state)@, row as int, column as int),
        final(state).wf(),
        r == (final(state)@.hovered != old(state)@.hovered),
{
    if row < state.viewport_height {
        let line: usize = state.scroll_offset + row;
        state.hover_link_at(line, column)
    } else {
        state.clear_hover()
    }
}

/// Handles a press of the left button.
fn handle_press(
    row: usize,
    column: usize,
    state: &mut PagerState,
    needs_redraw: &mut bool,
    link_to_open: &mut Option<String>,
)
    requires
        old(state).wf(),
    ensures
        ({
            let step = press_step(old(state)@, row as int, column as int);
            &&& final(state)@ == step.state
            &&& final(state).wf()
            &&& *final(needs_redraw) == (*old(needs_redraw) || step.redraw)
            &&& ansi::opt_text(*final(link_to_open)) == opened(
                step,
                ansi::opt_text(*old(link_to_open)),
            )
        }),
{
    state.end_drag();
    if row >= state.viewport_height {
        if state.clear_hover() {
            *needs_redraw = true;
        }
        return;
    }
    if let Some(bar) = state.scrollbar_column() {
        if column == bar && state.scrollbar_geometry().is_some() {
            let scrolled = state.begin_scrollbar_drag(row);
            let cleared = state.clear_hover();
            if scrolled || cleared {
                *needs_redraw = true;
            }
            return;
        }
    }
    let line: usize = state.scroll_offset + row;
    let hover_changed = state.hover_link_at(line, column);
    let focused = state.focus_link_at(line, column);
    if hover_changed || focused.is_some() {
        *needs_redraw = true;
    }
    match focused {
        Some(i) => {
            assert(state@.links[i as int] == state.links@[i as int]@);
            *link_to_open = Some(state.links[i].url.clone());
        },
        None => {
            state.begin_content_drag(row);
            if state.clear_hover() {
                *needs_redraw = true;
            }
        },
    }
}

/// Handles a pointer event.
pub fn handle_mouse_event(
    mouse_event: MouseEvent,
    state: &mut PagerState,
    needs_redraw: &mut bool,
    link_to_open: &mut Option<String>,
)
    requires
        old(state).wf(),
    ensures
        ({
            let step = mouse_step(old(state)@, mouse_event);
            &&& final(state)@ == step.state
            &&& final(state).wf()
            &&& *final(needs_redraw) == (*old(needs_redraw) || step.redraw)
            &&& ansi::opt_text(*final(link_to_open)) == opened(
                step,
                ansi::opt_text(*old(link_to_open)),
            )
        }),
{
    let row: usize = mouse_event.row;
    let column: usize = mouse_event.column;
    match mouse_event.kind {
        MouseEventKind::ScrollUp => {
            let previous: usize = state.scroll_offset;
            state.scroll_up();
            let hover_changed = point_at(state, row, column);
            if state.scroll_offset != previous || hover_changed {
                *needs_redraw = true;
            }
        },
        MouseEventKind::ScrollDown => {
            let previous: usize = state.scroll_offset;
            state.scroll_down();
            let hover_changed = point_at(state, row, column);
            if state.scroll_offset != previous || hover_changed {
                *needs_redraw = true;
            }
        },
        MouseEventKind::Down => {
            handle_press(row, column, state, needs_redraw, link_to_open);
        },
        MouseEventKind::Moved => {
            if !state.is_dragging() {
                if point_at(state, row, column) {
                    *needs_redraw = true;
                }
            }
        },
        MouseEventKind::Drag => {
            if state.is_dragging() {
                let scrollbar = state.dragging_scrollbar();
                let scrolled = state.update_drag(row);
                let cleared = if scrollbar {
                    state.clear_hover()
                } else {
                    false
                };
                if scrolled || cleared {
                    *needs_redraw = true;
                }
            } else if point_at(state, row, column) {
                *needs_redraw = true;
            }
        },
        MouseEventKind::Up => {
            let scrollbar = state.dragging_scrollbar();
            state.end_drag();
            let changed = if scrollbar {
                state.clear_hover()
            } else {
                point_at(state, row, column)
            };
            if changed {
                *needs_redraw = true;
            }
        },
        MouseEventKind::Other => {},
    }
}

// ---------------------------------------------------------------------------
// Laws
// ---------------------------------------------------------------------------

/// Exactly these keys end the pager: outside of a query that is being typed, `q` and Ctrl-C, and
/// Esc where there is no search to clear.
pub proof fn law_quit_keys(m: StateModel, key: KeyEvent, found: Seq<SearchMatch>)
    ensures
        key_step(m, key, found).running == !(!(m.search is EnteringQuery) && (if key.ctrl {
            key.code == KeyCode::Char('c')
        } else {
            key.code == KeyCode::Char('q') || (key.code == KeyCode::Esc && !(m.search is Active))
        })),
{
}

/// While a query is being typed, only Enter can scroll the text.
pub proof fn law_typing_does_not_scroll(m: StateModel, key: KeyEvent, found: Seq<SearchMatch>)
    requires
        m.search is EnteringQuery,
        key.code != KeyCode::Enter,
    ensures
        key_step(m, key, found).state.scroll == m.scroll,
{
}

/// A key keeps the text: its length and the viewport stay, the text is scrolled no further than to
/// its end, and only Enter opens a link.
pub proof fn law_key_keeps_text(m: StateModel, key: KeyEvent, found: Seq<SearchMatch>)
    requires
        state::state_ok(m),
        m.links.len() <= usize::MAX,
    ensures
        ({
            let step = key_step(m, key, found);
            &&& step.state.total == m.total
            &&& step.state.height == m.height
            &&& 0 <= step.state.scroll <= state::max_scroll(step.state)
            &&& key.code != KeyCode::Enter ==> step.open is None
        }),
{
}

/// Where query and text are ASCII, every key can be handled: the search that Enter starts can be
/// carried out, as long as a line and the query together fit the machine.
pub proof fn law_ascii_key_handled(m: StateModel, key: KeyEvent, content: Seq<ParsedLine>)
    requires
        is_ascii_chars(m.input),
        forall|i: int|
            0 <= i < content.len() ==> is_ascii_chars((#[trigger] content[i]).plain@)
                && content[i].plain@.len() + m.input.len() <= usize::MAX,
    ensures
        starts_search(m, key) ==> navigation::can_search(m, content),
{
    let lines = search::plain_texts(content);
    assert forall|i: int| 0 <= i < lines.len() implies is_ascii_chars(#[trigger] lines[i])
        && lines[i].len() + m.input.len() <= usize::MAX by {
        assert(lines[i] == content[i].plain@);
    }
    search::law_ascii_search(m.input, lines);
}

/// Backspace takes back the last character typed.
pub proof fn law_backspace(m: StateModel, c: char, key: KeyEvent, back: KeyEvent)
    requires
        m.search is EnteringQuery,
        key.code == KeyCode::Char(c),
        back.code == KeyCode::Backspace,
    ensures
        key_step(key_step(m, key, seq![]).state, back, seq![]).state == m,
{
    assert(m.input.push(c).drop_last() =~= m.input);
}

/// A key that asks for no redraw changes neither the search nor which link is focused or hovered.
pub proof fn law_no_redraw_no_change(m: StateModel, key: KeyEvent, found: Seq<SearchMatch>)
    requires
        !key_step(m, key, found).redraw,
        state::state_ok(m),
        m.links.len() <= usize::MAX,
    ensures
        ({
            let n = key_step(m, key, found).state;
            n.search == m.search && n.input == m.input && n.focused == m.focused && n.hovered
                == m.hovered
        }),
{
}

/// A link that is opened by the pointer covers the place where the button was pressed.
pub proof fn law_click_opens_link_under_pointer(m: StateModel, e: MouseEvent)
    requires
        state::state_ok(m),
        m.links.len() <= usize::MAX,
        mouse_step(m, e).open is Some,
    ensures
        exists|i: int|
            {
                &&& 0 <= i < m.links.len()
                &&& mouse_step(m, e).open == Some((#[trigger] m.links[i]).url)
                &&& links::link_covers(m.links[i], m.scroll + e.row, e.column as int)
            },
{
    let line = m.scroll + e.row;
    crate::state_laws::law_pointed_link_covers(m, line, e.column as int);
    let i = navigation::link_at(m.links, line, e.column as int, 0)->0;
    assert(mouse_step(m, e).open == Some(m.links[i as int].url));
}

} // verus!
