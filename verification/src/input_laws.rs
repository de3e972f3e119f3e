//! Which key and which movement of the pointer does what.
use vstd::prelude::*;
use vstd::utf8::*;
use crate::ansi::ParsedLine;
use crate::external;
use crate::input;
use crate::input::{KeyCode, KeyEvent, MouseEvent, MouseEventKind, Step};
use crate::links;
use crate::navigation;
use crate::search;
use crate::search::SearchMatch;
use crate::state;
use crate::state::{DragState, SearchModel, StateModel};
use crate::state_laws;

verus! {

// ---------------------------------------------------------------------------
// Keys
// ---------------------------------------------------------------------------

/// Where a key that scrolls wants the text to be: one line on, a page of `height` lines, half a
/// page, or an end of the text.
pub open spec fn wanted_offset(m: StateModel, key: KeyEvent) -> Option<int> {
    let page = m.height;
    let half = m.height / 2;
    match key.code {
        KeyCode::Char('f') => Some(m.scroll + page),
        KeyCode::Char('b') => Some(m.scroll - page),
        KeyCode::Char('d') => Some(m.scroll + half),
        KeyCode::Char('u') => Some(m.scroll - half),
        _ => if key.ctrl {
            None
        } else {
            match key.code {
                KeyCode::Char('j') | KeyCode::Down => Some(m.scroll + 1),
                KeyCode::Char('k') | KeyCode::Up => Some(m.scroll - 1),
                KeyCode::Char(' ') | KeyCode::PageDown => Some(m.scroll + page),
                KeyCode::PageUp => Some(m.scroll - page),
                KeyCode::Char('g') | KeyCode::Home => Some(0int),
                KeyCode::Char('G') | KeyCode::End => Some(m.total),
                _ => None,
            }
        },
    }
}

/// The keys that scroll: `j`, `k` and the arrows by a line, space, `f`, `b`, page up, page down,
/// control-f and control-b by a page, `d`, `u`, control-d and control-u by half a page, `g`, `G`,
/// home and end to the ends of the text. They do nothing else but ask for the screen to be drawn.
pub proof fn law_scroll_keys(m: StateModel, key: KeyEvent, found: Seq<SearchMatch>)
    requires
        state::state_ok(m),
        !(m.search is EnteringQuery),
        wanted_offset(m, key) is Some,
    ensures
        ({
            let step = input::key_step(m, key, found);
            &&& state_laws::scrolled_near(m, wanted_offset(m, key)->0, step.state)
            &&& step.running
            &&& step.redraw
            &&& step.open is None
        }),
{
    state_laws::law_scroll_amounts(m);
}

/// `/` asks for a query; `n` and `N` go to the next and the previous match; all ask for the screen
/// to be drawn. Escape ends a search.
pub proof fn law_search_keys(m: StateModel, key: KeyEvent, found: Seq<SearchMatch>)
    requires
        state::state_ok(m),
        !(m.search is EnteringQuery),
        !key.ctrl,
    ensures
        ({
            let step = input::key_step(m, key, found);
            &&& key.code == KeyCode::Char('/') ==> step.state == (StateModel {
                search: SearchModel::EnteringQuery,
                input: seq![],
                ..m
            }) && step.redraw
            &&& key.code == KeyCode::Char('n') ==> step.redraw && step.state
                == navigation::next_match_selected(m) && match m.search {
                SearchModel::Active { query, matches, current_match } => step.state.search
                    == (SearchModel::Active {
                    query,
                    matches,
                    current_match: (current_match + 1) % (matches.len() as int),
                }),
                _ => step.state == m,
            }
            &&& key.code == KeyCode::Char('N') ==> step.redraw && step.state
                == navigation::prev_match_selected(m) && match m.search {
                SearchModel::Active { query, matches, current_match } => step.state.search
                    == (SearchModel::Active {
                    query,
                    matches,
                    current_match: (current_match + matches.len() - 1) % (matches.len() as int),
                }),
                _ => step.state == m,
            }
            &&& key.code == KeyCode::Esc && m.search is Active ==> step.state == (StateModel {
                search: SearchModel::Normal,
                input: seq![],
                ..m
            }) && step.redraw && step.running
        }),
{
    reveal(state_laws::scrolled_near);
    if m.search is Active {
        state_laws::law_matches_go_round(m);
    }
}

/// Tab gives the next link the focus; tab with shift, and back-tab, the previous one. The screen is
/// drawn if another link got the focus.
pub proof fn law_focus_keys(m: StateModel, key: KeyEvent, found: Seq<SearchMatch>)
    requires
        state::state_ok(m),
        !(m.search is EnteringQuery),
        !key.ctrl,
        m.links.len() <= usize::MAX,
        m.links.len() > 0,
        key.code == KeyCode::Tab || key.code == KeyCode::BackTab,
    ensures
        ({
            let step = input::key_step(m, key, found);
            let target = if key.code == KeyCode::Tab && !key.shift {
                navigation::next_link(m)
            } else {
                navigation::prev_link(m)
            };
            &&& target is Some
            &&& step.state.focused == Some(target->0 as usize)
            &&& step.redraw == (m.focused != step.state.focused)
            &&& step.running
            &&& step.state == (StateModel {
                focused: step.state.focused,
                scroll: step.state.scroll,
                ..m
            })
        }),
{
}

/// Enter opens the focused link, and does nothing else; where none is focused it does nothing.
pub proof fn law_enter_opens(m: StateModel, key: KeyEvent, found: Seq<SearchMatch>)
    requires
        state::state_ok(m),
        !(m.search is EnteringQuery),
        !key.ctrl,
        key.code == KeyCode::Enter,
    ensures
        ({
            let step = input::key_step(m, key, found);
            &&& step.state == m
            &&& step.running
            &&& !step.redraw
            &&& step.open == (match m.focused {
                Some(i) => Some(m.links[i as int].url),
                None => None,
            })
        }),
{
}

/// Every other key does nothing, except that `q`, escape and control-c end the pager.
pub proof fn law_other_keys(m: StateModel, key: KeyEvent, found: Seq<SearchMatch>)
    requires
        !(m.search is EnteringQuery),
        wanted_offset(m, key) is None,
        key.ctrl || !(key.code == KeyCode::Char('/') || key.code == KeyCode::Char('n') || key.code
            == KeyCode::Char('N') || key.code == KeyCode::Tab || key.code == KeyCode::BackTab
            || key.code == KeyCode::Enter || key.code == KeyCode::Esc && m.search is Active),
    ensures
        ({
            let step = input::key_step(m, key, found);
            &&& step.state == m
            &&& !step.redraw
            &&& step.open is None
        }),
{
}

/// While a query is being typed, characters are put behind it, backspace takes the last one away,
/// escape gives it up, and enter searches for it; no other key does anything.
pub proof fn law_typing(m: StateModel, key: KeyEvent, found: Seq<SearchMatch>)
    requires
        state::state_ok(m),
        m.search is EnteringQuery,
    ensures
        ({
            let step = input::key_step(m, key, found);
            &&& step.running
            &&& step.open is None
            &&& match key.code {
                KeyCode::Char(c) => {
                    &&& step.redraw
                    &&& step.state == (StateModel { input: m.input + seq![c], ..m })
                },
                KeyCode::Backspace => {
                    &&& step.redraw == (m.input.len() > 0)
                    &&& step.state == (StateModel { input: step.state.input, ..m })
                    &&& m.input.len() > 0 ==> step.state.input + seq![m.input.last()] == m.input
                    &&& m.input.len() == 0 ==> step.state.input == m.input
                },
                KeyCode::Esc => {
                    &&& step.redraw
                    &&& step.state == (StateModel {
                        search: SearchModel::Normal,
                        input: seq![],
                        ..m
                    })
                },
                KeyCode::Enter => {
                    &&& step.redraw
                    &&& m.input.len() == 0 || found.len() == 0 ==> step.state == (StateModel {
                        search: SearchModel::Normal,
                        ..m
                    })
                    &&& m.input.len() > 0 && found.len() > 0 ==> step.state.search
                        == (SearchModel::Active {
                        query: m.input,
                        matches: found,
                        current_match: 0,
                    })
                    &&& m.input.len() > 0 && found.len() > 0 && m.height > 0 && found[0].line_idx
                        < m.total ==> state_laws::shown(step.state, found[0].line_idx as int)
                },
                _ => step.state == m && !step.redraw,
            }
        }),
{
    if m.input.len() > 0 {
        assert(m.input.drop_last() + seq![m.input.last()] =~= m.input);
    }
    if let KeyCode::Char(c) = key.code {
        assert(m.input.push(c) =~= m.input + seq![c]);
    }
}

// ---------------------------------------------------------------------------
// The pointer
// ---------------------------------------------------------------------------

/// Whether link `h` is the one at a row and column of the viewport: the first that covers the place,
/// and none where no link does or the row is below the viewport.
pub open spec fn hovers(m: StateModel, row: int, column: int, h: Option<usize>) -> bool {
    match h {
        Some(i) => {
            &&& row < m.height
            &&& i < m.links.len()
            &&& links::link_covers(m.links[i as int], m.scroll + row, column)
            &&& forall|j: int|
                0 <= j < i ==> !links::link_covers(#[trigger] m.links[j], m.scroll + row, column)
        },
        None => row >= m.height || forall|j: int|
            0 <= j < m.links.len() ==> !links::link_covers(
                #[trigger] m.links[j],
                m.scroll + row,
                column,
            ),
    }
}

proof fn lemma_link_at(m: StateModel, line: int, column: int, i: int)
    requires
        0 <= i,
        m.links.len() <= usize::MAX,
    ensures
        match navigation::link_at(m.links, line, column, i) {
            Some(k) => {
                &&& i <= k < m.links.len()
                &&& links::link_covers(m.links[k as int], line, column)
                &&& forall|j: int|
                    i <= j < k ==> !links::link_covers(#[trigger] m.links[j], line, column)
            },
            None => forall|j: int|
                i <= j < m.links.len() ==> !links::link_covers(#[trigger] m.links[j], line, column),
        },
    decreases m.links.len() - i,
{
    if i < m.links.len() && !links::link_covers(m.links[i], line, column) {
        lemma_link_at(m, line, column, i + 1);
    }
}

/// The wheel scrolls by a line, and the link that is then under the pointer is hovered.
pub proof fn law_wheel(m: StateModel, e: MouseEvent)
    requires
        state::state_ok(m),
        m.links.len() <= usize::MAX,
        e.kind == MouseEventKind::ScrollUp || e.kind == MouseEventKind::ScrollDown,
    ensures
        ({
            let n = input::mouse_step(m, e).state;
            let wanted = if e.kind == MouseEventKind::ScrollUp {
                m.scroll - 1
            } else {
                m.scroll + 1
            };
            &&& state_laws::scrolled_near(StateModel { hovered: n.hovered, ..m }, wanted, n)
            &&& hovers(n, e.row as int, e.column as int, n.hovered)
            &&& input::mouse_step(m, e).redraw == (n.scroll != m.scroll || n.hovered != m.hovered)
        }),
{
    reveal(state_laws::scrolled_near);
    let up = state::scrolled_up(m);
    let down = state::scrolled_down(m);
    lemma_link_at(up, up.scroll + e.row, e.column as int, 0);
    lemma_link_at(down, down.scroll + e.row, e.column as int, 0);
    let n = input::mouse_step(m, e).state;
    assert forall|s: int|
        state_laws::valid_offset(StateModel { hovered: n.hovered, ..m }, s) == #[trigger]
    state_laws::valid_offset(m, s) by {
    }
}

/// A pointer that moves without dragging hovers the link under it and changes nothing else.
pub proof fn law_moving_hovers(m: StateModel, e: MouseEvent)
    requires
        m.links.len() <= usize::MAX,
        m.drag is None,
        e.kind == MouseEventKind::Moved || e.kind == MouseEventKind::Drag,
    ensures
        ({
            let n = input::mouse_step(m, e).state;
            &&& n == (StateModel { hovered: n.hovered, ..m })
            &&& hovers(m, e.row as int, e.column as int, n.hovered)
            &&& input::mouse_step(m, e).redraw == (n.hovered != m.hovered)
        }),
{
    lemma_link_at(m, m.scroll + e.row, e.column as int, 0);
}

/// Pressing the button below the text lets go of everything; on the scrollbar, in the last column,
/// it grabs the knob; on a link it opens it and gives it the focus; elsewhere it grabs the text at
/// that row.
pub proof fn law_press(m: StateModel, e: MouseEvent)
    requires
        state::state_ok(m),
        m.links.len() <= usize::MAX,
        e.kind == MouseEventKind::Down,
    ensures
        ({
            let step = input::mouse_step(m, e);
            let n = step.state;
            let (row, column) = (e.row as int, e.column as int);
            let on_bar = column + 1 == m.last_terminal_width && 0 < m.height < m.total;
            &&& step.running
            &&& if row >= m.height {
                n == (StateModel { drag: None, hovered: None, ..m }) && step.open is None
            } else if on_bar {
                &&& n == (StateModel { scroll: n.scroll, drag: n.drag, hovered: None, ..m })
                &&& n.drag matches Some(DragState::Scrollbar { .. })
                &&& n.scroll == state::scrollbar_grabbed(m, row).scroll
                &&& step.open is None
            } else {
                &&& hovers(m, row, column, n.hovered)
                &&& match n.hovered {
                    Some(i) => {
                        &&& n.focused == Some(i)
                        &&& step.open == Some(m.links[i as int].url)
                        &&& n.drag is None
                        &&& step.redraw
                    },
                    None => {
                        &&& n == (StateModel { drag: n.drag, hovered: None, ..m })
                        &&& n.drag == Some(
                            DragState::Content {
                                origin_row: e.row,
                                origin_scroll_offset: m.scroll as usize,
                            },
                        )
                        &&& step.open is None
                    },
                }
            }
        }),
{
    lemma_link_at(m, m.scroll + e.row, e.column as int, 0);
}

/// A drag that goes on moves the text or the knob with the pointer: dragged text is as near as it
/// can be to where it was grabbed, less the rows that the pointer went down. The pointer hovers no
/// link while it drags the scrollbar.
pub proof fn law_drag(m: StateModel, e: MouseEvent)
    requires
        state::state_ok(m),
        e.kind == MouseEventKind::Drag,
    ensures
        ({
            let step = input::mouse_step(m, e);
            let n = step.state;
            &&& m.drag matches Some(DragState::Content { origin_row, origin_scroll_offset })
                ==> state_laws::scrolled_near(
                m,
                origin_scroll_offset + origin_row - e.row,
                n,
            )
            &&& m.drag matches Some(DragState::Scrollbar { .. }) ==> n == (StateModel {
                scroll: state::dragged(m, e.row as int).scroll,
                hovered: None,
                ..m
            })
            &&& step.open is None
            &&& step.redraw == (n.scroll != m.scroll || n.hovered != m.hovered)
        }),
{
    if let Some(DragState::Content { origin_row, origin_scroll_offset }) = m.drag {
        state_laws::law_content_follows(m, origin_row, origin_scroll_offset, e.row as int);
    }
}

/// Releasing the button ends a drag and does not scroll; behind the scrollbar no link is hovered,
/// elsewhere the one under the pointer.
pub proof fn law_release(m: StateModel, e: MouseEvent)
    requires
        m.links.len() <= usize::MAX,
        e.kind == MouseEventKind::Up,
    ensures
        ({
            let step = input::mouse_step(m, e);
            let n = step.state;
            &&& n == (StateModel { drag: None, hovered: n.hovered, ..m })
            &&& step.open is None
            &&& if m.drag matches Some(DragState::Scrollbar { .. }) {
                n.hovered is None
            } else {
                hovers(m, e.row as int, e.column as int, n.hovered)
            }
            &&& step.redraw == (n.hovered != m.hovered)
        }),
{
    lemma_link_at(m, m.scroll + e.row, e.column as int, 0);
}

/// Other movements do nothing, and neither does moving while something is dragged.
pub proof fn law_other_movements(m: StateModel, e: MouseEvent)
    requires
        e.kind == MouseEventKind::Other || e.kind == MouseEventKind::Moved && m.drag is Some,
    ensures
        ({
            let step = input::mouse_step(m, e);
            step.state == m && !step.redraw && step.open is None && step.running
        }),
{
}

/// A link that is to be opened stays to be opened until another one is.
pub proof fn law_opened(step: Step, before: Option<Seq<char>>)
    ensures
        step.open is Some ==> input::opened(step, before) == step.open,
        step.open is None ==> input::opened(step, before) == before,
{
}

/// The matches of a typed query are the places in the text where it stands, without regard to case,
/// in the order of the text.
pub proof fn law_typed_matches(m: StateModel, content: Seq<ParsedLine>, line: int, x: int)
    requires
        m.input.len() > 0,
        navigation::can_search(m, content),
        search::lines_fit(Seq::new(content.len(), |i: int| content[i].plain@)),
        0 <= line < content.len(),
        0 <= x,
    ensures
        search::in_order(input::typed_matches(m, content)),
        search::has_match(input::typed_matches(m, content), line, x) == search::occurs_at(
            encode_utf8(external::lowered(content[line].plain@)),
            encode_utf8(external::lowered(m.input)),
            x,
        ),
{
    let lines = Seq::new(content.len(), |i: int| content[i].plain@);
    assert(search::plain_texts(content) =~= lines);
    search::law_search_complete(m.input, lines, line, x);
}

} // verus!
