//! How the movements of the pager relate to each other.
use vstd::prelude::*;
use crate::links;
use crate::links::LinkModel;
use crate::navigation;
use crate::search::SearchMatch;
use crate::state;
use crate::state::{DragState, SearchModel, StateModel};

verus! {

// ---------------------------------------------------------------------------
// Scroll offsets
// ---------------------------------------------------------------------------

/// An offset that the text can be scrolled to: at the start, or to a line of the text with the
/// viewport full.
pub open spec fn valid_offset(m: StateModel, s: int) -> bool {
    s == 0 || 0 < s < m.total && s + m.height <= m.total
}

/// How far apart two offsets are.
pub open spec fn apart(a: int, b: int) -> int {
    if a < b {
        b - a
    } else {
        a - b
    }
}

/// `n` is `m` scrolled as near to `wanted` as the text can be, and nothing else is different.
#[verifier::opaque]
pub open spec fn scrolled_near(m: StateModel, wanted: int, n: StateModel) -> bool {
    &&& n == (StateModel { scroll: n.scroll, ..m })
    &&& valid_offset(m, n.scroll)
    &&& forall|s: int|
        #[trigger] valid_offset(m, s) ==> apart(n.scroll, wanted) <= apart(s, wanted)
}

/// Whether a line is in the viewport.
pub open spec fn shown(m: StateModel, line: int) -> bool {
    m.scroll <= line < m.scroll + m.height
}

/// Scrolling moves the text by one line, a page by the rows of the viewport, half a page by half of
/// them, as far as the text goes; the jumps go to its first and its last line. Nothing else
/// changes.
pub proof fn law_scroll_amounts(m: StateModel)
    requires
        state::state_ok(m),
    ensures
        scrolled_near(m, m.scroll + 1, state::scrolled_down(m)),
        scrolled_near(m, m.scroll - 1, state::scrolled_up(m)),
        scrolled_near(m, m.scroll + m.height, state::paged_down(m)),
        scrolled_near(m, m.scroll - m.height, state::paged_up(m)),
        scrolled_near(m, m.scroll + m.height / 2, state::half_paged_down(m)),
        scrolled_near(m, m.scroll - m.height / 2, state::half_paged_up(m)),
        scrolled_near(m, 0, state::at_start(m)),
        scrolled_near(m, m.total, state::at_end(m)),
{
    reveal(scrolled_near);
}

/// In a viewport that is not empty, the first line is shown after a jump to the start and the last
/// line after a jump to the end.
pub proof fn law_jumps_show_ends(m: StateModel)
    requires
        state::state_ok(m),
        m.total > 0,
        m.height > 0,
    ensures
        shown(state::at_start(m), 0),
        shown(state::at_end(m), m.total - 1),
{
}

/// A state is scrolled to a valid offset, and the largest offset is the largest valid one.
pub proof fn law_offset_valid(m: StateModel)
    requires
        state::state_ok(m),
    ensures
        valid_offset(m, m.scroll),
        valid_offset(m, state::max_scroll(m)),
        !valid_offset(m, state::max_scroll(m) + 1),
{
}

/// A new height leaves the text where it is, or as near to it as it can be.
pub proof fn law_new_height(m: StateModel, height: int)
    requires
        state::state_ok(m),
        state::limits(m.total, height),
    ensures
        scrolled_near(
            StateModel { height, ..m },
            m.scroll,
            state::with_height(m, height),
        ),
{
    reveal(scrolled_near);
}

/// The line in the middle has as many lines above it as below it, or one more above it. A resize
/// brings it there again, as near as the text can be scrolled.
pub proof fn law_middle(m: StateModel, height: int, center: int)
    requires
        state::state_ok(m),
        state::limits(m.total, height),
        0 <= center,
    ensures
        ({
            let above = state::center_line(m) - m.scroll;
            2 * above <= m.height <= 2 * above + 1
        }),
        exists|above: int|
            2 * above <= height <= 2 * above + 1 && #[trigger] scrolled_near(
                StateModel { height, ..m },
                center - above,
                state::resized(m, height, center),
            ),
{
    reveal(scrolled_near);
    let n = state::resized(m, height, center);
    assert(scrolled_near(StateModel { height, ..m }, center - height / 2, n));
}

/// A new state is at the start of its text, with nothing typed, found, focused or dragged.
pub proof fn law_initial(total: int, height: int)
    ensures
        ({
            let m = state::initial(total, height);
            &&& m.scroll == 0
            &&& m.total == total
            &&& m.height == height
            &&& m.search is Normal
            &&& m.input.len() == 0
            &&& m.links.len() == 0
            &&& m.focused is None
            &&& m.hovered is None
            &&& m.drag is None
            &&& m.filename is None
            &&& m.last_terminal_height == 0
            &&& m.last_terminal_width == 0
        }),
{
}

// ---------------------------------------------------------------------------
// Scrolling
// ---------------------------------------------------------------------------

/// Scrolling up undoes scrolling down, and the other way round, away from the ends of the text.
pub proof fn law_scroll_back(m: StateModel)
    requires
        state::state_ok(m),
    ensures
        m.scroll < state::max_scroll(m) ==> state::scrolled_up(state::scrolled_down(m)) == m,
        m.scroll > 0 ==> state::scrolled_down(state::scrolled_up(m)) == m,
{
}

/// Paging up undoes paging down where a full page could be scrolled, and half pages likewise.
pub proof fn law_page_back(m: StateModel)
    requires
        state::state_ok(m),
    ensures
        m.scroll + m.height <= state::max_scroll(m) ==> state::paged_up(state::paged_down(m)) == m,
        m.scroll >= m.height ==> state::paged_down(state::paged_up(m)) == m,
        m.scroll + m.height / 2 <= state::max_scroll(m) ==> state::half_paged_up(
            state::half_paged_down(m),
        ) == m,
        m.scroll >= m.height / 2 ==> state::half_paged_down(state::half_paged_up(m)) == m,
{
}

/// At the ends of the text, scrolling further changes nothing.
pub proof fn law_ends_hold(m: StateModel)
    requires
        state::state_ok(m),
    ensures
        m.scroll == 0 ==> state::scrolled_up(m) == m && state::paged_up(m) == m
            && state::half_paged_up(m) == m && state::at_start(m) == m,
        m.scroll == state::max_scroll(m) ==> state::scrolled_down(m) == m && state::paged_down(m)
            == m && state::half_paged_down(m) == m && state::at_end(m) == m,
{
}

/// Where the text is longer than the viewport, the viewport is always full: it never shows
/// anything behind the last line.
pub proof fn law_viewport_full(m: StateModel)
    requires
        state::state_ok(m),
        m.total >= m.height,
    ensures
        m.scroll + m.height <= m.total,
{
}

/// After a resize the line that is to be in the middle is visible.
pub proof fn law_resize_keeps_center(m: StateModel, height: int, center: int)
    requires
        state::state_ok(m),
        state::limits(m.total, height),
        height > 0,
        0 <= center < m.total,
    ensures
        ({
            let n = state::resized(m, height, center);
            n.scroll <= center < n.scroll + n.height
        }),
{
}

// ---------------------------------------------------------------------------
// Dragging
// ---------------------------------------------------------------------------

/// Text that is dragged away and back to the row where it was grabbed is where it was.
pub proof fn law_content_drag_back(m: StateModel, row: int, away: int)
    requires
        state::state_ok(m),
        0 <= row <= usize::MAX,
    ensures
        ({
            let grabbed = StateModel {
                drag: Some(
                    DragState::Content {
                        origin_row: row as usize,
                        origin_scroll_offset: m.scroll as usize,
                    },
                ),
                ..m
            };
            state::dragged(state::dragged(grabbed, away), row) == grabbed
        }),
{
}

/// Grabbing the scrollbar on its knob does not scroll.
pub proof fn law_grab_on_knob(m: StateModel, row: int)
    requires
        state::state_ok(m),
        state::geometry(m) is Some,
        (state::geometry(m)->0).0 <= row < (state::geometry(m)->0).0 + (state::geometry(m)->0).1,
    ensures
        state::scrollbar_grabbed(m, row).scroll == m.scroll,
{
}

/// The text follows the pointer: dragged text is as near as it can be to where its line under the
/// pointer stays the one that was grabbed.
pub proof fn law_content_follows(m: StateModel, origin: usize, at: usize, row: int)
    requires
        state::state_ok(m),
        m.drag == Some(DragState::Content { origin_row: origin, origin_scroll_offset: at }),
    ensures
        scrolled_near(m, at + origin - row, state::dragged(m, row)),
{
    reveal(scrolled_near);
}

/// There is a scrollbar exactly where the text is longer than the viewport. The knob takes the
/// share of the bar that the viewport shows of the text, and at least one row.
pub proof fn law_knob_size(m: StateModel)
    requires
        state::state_ok(m),
    ensures
        state::geometry(m) is Some <==> 0 < m.height < m.total,
        state::geometry(m) matches Some((start, size)) ==> {
            &&& m.height * m.height < (size + 1) * m.total
            &&& size == 1 || size * m.total <= m.height * m.height
        },
{
    if 0 < m.height < m.total {
        let (h, t) = (m.height, m.total);
        let s = (h * h) / t;
        assert(s * t <= h * h && h * h < (s + 1) * t && s <= h) by (nonlinear_arith)
            requires
                s == (h * h) / t,
                0 < h < t,
        ;
        if s < 1 {
            assert(h * h < 2 * t) by (nonlinear_arith)
                requires
                    h * h < (s + 1) * t,
                    s < 1,
                    0 < t,
            ;
        }
    }
}

/// The knob stands as far down its way as the text is scrolled: with `travel` rows to go for the
/// knob and `way` lines for the text, `start / travel` is `scroll / way`, rounded down to rows.
pub proof fn law_knob_start(m: StateModel)
    requires
        state::state_ok(m),
        state::geometry(m) is Some,
    ensures
        ({
            let (start, size) = state::geometry(m)->0;
            let travel = m.height - size;
            let way = m.total - m.height;
            start * way <= m.scroll * travel < (start + 1) * way
        }),
{
    let (start, size) = state::geometry(m)->0;
    let travel = m.height - size;
    let way = m.total - m.height;
    assert(start * way <= m.scroll * travel && m.scroll * travel < (start + 1) * way)
        by (nonlinear_arith)
        requires
            start == (m.scroll * travel) / way,
            0 < way,
    ;
}

/// The offset for a place of the knob is the one whose share of the text is nearest to the share
/// of the knob's way; a knob pushed beyond the end counts as at the end.
pub proof fn law_knob_to_offset(m: StateModel, start: int, size: int)
    requires
        state::state_ok(m),
        0 <= start,
        0 <= size < m.height,
        m.height < m.total,
    ensures
        ({
            let travel = m.height - size;
            let way = m.total - m.height;
            let at = if start < travel {
                start
            } else {
                travel
            };
            let offset = state::scroll_for_knob(m, start, size);
            -travel < 2 * (offset * travel - at * way) <= travel
        }),
{
    let travel = m.height - size;
    let way = m.total - m.height;
    let at = if start < travel {
        start
    } else {
        travel
    };
    let offset = state::scroll_for_knob(m, start, size);
    assert(offset == (at * way + travel / 2) / travel);
    assert(-travel < 2 * (offset * travel - at * way) && 2 * (offset * travel - at * way)
        <= travel) by (nonlinear_arith)
        requires
            offset == (at * way + travel / 2) / travel,
            0 < travel,
            0 <= at * way,
    ;
}

/// Grabbing or dragging the scrollbar changes nothing but the offset and what is being dragged.
/// Where the knob is grabbed it is held at that row; elsewhere it is held in its middle and comes
/// to the pointer. Dragging brings the held row of the knob to the pointer, as far as the bar goes.
pub proof fn law_scrollbar_follows(m: StateModel, row: int)
    requires
        state::state_ok(m),
        state::geometry(m) is Some,
        0 <= row <= usize::MAX,
    ensures
        ({
            let (start, size) = state::geometry(m)->0;
            let n = state::scrollbar_grabbed(m, row);
            let held = n.drag->0->anchor_within_knob;
            &&& n == (StateModel { scroll: n.scroll, drag: n.drag, ..m })
            &&& n.drag matches Some(DragState::Scrollbar { .. })
            &&& if start <= row < start + size {
                row == start + held && n.scroll == m.scroll
            } else {
                &&& held < size
                &&& 2 * held <= size <= 2 * held + 2
                &&& row >= held && row - held + size <= m.height ==> n.scroll
                    == state::scroll_for_knob(m, row - held, size)
                &&& row < held ==> n.scroll == 0
                &&& row - held + size > m.height && size < m.height ==> n.scroll + m.height
                    == m.total
            }
        }),
        m.drag matches Some(DragState::Scrollbar { anchor_within_knob: held }) ==> {
            let (start, size) = state::geometry(m)->0;
            let n = state::dragged(m, row);
            &&& n == (StateModel { scroll: n.scroll, ..m })
            &&& held < size && row >= held && row - held + size <= m.height ==> n.scroll
                == state::scroll_for_knob(m, row - held, size)
            &&& held < size && row < held && size < m.height ==> n.scroll == 0
            &&& held < size && row - held + size > m.height && size < m.height ==> n.scroll
                + m.height == m.total
        },
{
    state::law_knob_inside(m);
    let (start, size) = state::geometry(m)->0;
    state::law_scroll_for_knob(m, 0, size);
    state::law_scroll_for_knob(m, m.height - size, size);
}

/// Without a scrollbar nothing can be dragged by it, and without a drag nothing moves.
pub proof fn law_no_drag(m: StateModel, row: int)
    ensures
        m.drag is None ==> state::dragged(m, row) == m,
        state::geometry(m) is None ==> state::scrollbar_grabbed(m, row) == (StateModel {
            drag: None,
            ..m
        }),
{
}

// ---------------------------------------------------------------------------
// Search
// ---------------------------------------------------------------------------

/// After a search that finds something, the first match is the current one and its line is
/// visible: the text is scrolled so that it is in the middle, or as near to that as it can be.
pub proof fn law_search_shows_match(m: StateModel, matches: Seq<SearchMatch>)
    requires
        state::state_ok(m),
        m.height > 0,
        m.input.len() > 0,
        matches.len() > 0,
        matches[0].line_idx < m.total,
    ensures
        ({
            let n = navigation::search_performed(m, matches);
            &&& n.scroll <= matches[0].line_idx < n.scroll + n.height
            &&& n.search == (SearchModel::Active { query: m.input, matches, current_match: 0 })
            &&& scrolled_near(
                StateModel { search: n.search, ..m },
                matches[0].line_idx - m.height / 2,
                n,
            )
        }),
{
    reveal(scrolled_near);
}

/// An empty query ends the search and does not move the text.
pub proof fn law_empty_query(m: StateModel, matches: Seq<SearchMatch>)
    requires
        m.input.len() == 0,
    ensures
        navigation::search_performed(m, matches) == (StateModel {
            search: SearchModel::Normal,
            ..m
        }),
{
}

/// The next and the previous match go round: behind the last comes the first. The text is scrolled
/// so that the match is in the middle, or as near to that as it can be; nothing else changes.
pub proof fn law_matches_go_round(m: StateModel)
    requires
        state::state_ok(m),
        m.search is Active,
    ensures
        ({
            let (query, matches, current) = (
                m.search->query,
                m.search->matches,
                m.search->current_match,
            );
            let next = (current + 1) % (matches.len() as int);
            let prev = (current + matches.len() - 1) % (matches.len() as int);
            let active = |i: int|
                StateModel {
                    search: SearchModel::Active { query, matches, current_match: i },
                    ..m
                };
            &&& scrolled_near(
                active(next),
                matches[next].line_idx - m.height / 2,
                navigation::next_match_selected(m),
            )
            &&& scrolled_near(
                active(prev),
                matches[prev].line_idx - m.height / 2,
                navigation::prev_match_selected(m),
            )
        }),
{
    reveal(scrolled_near);
    let len = m.search->matches.len() as int;
    let current = m.search->current_match;
    assert(0 <= current < len);
    if current + 1 < len {
        assert((current + 1) % len == current + 1) by (nonlinear_arith)
            requires
                0 <= current,
                current + 1 < len,
        ;
    } else {
        assert((current + 1) % len == 0) by (nonlinear_arith)
            requires
                current + 1 == len,
                0 < len,
        ;
    }
    if current == 0 {
        assert((current + len - 1) % len == len - 1) by (nonlinear_arith)
            requires
                current == 0,
                0 < len,
        ;
    } else {
        assert((current + len - 1) % len == current - 1) by (nonlinear_arith)
            requires
                0 < current < len,
        ;
    }
}

/// Without a search there is no match to go to.
pub proof fn law_no_search_no_match(m: StateModel)
    requires
        !(m.search is Active),
    ensures
        navigation::next_match_selected(m) == m,
        navigation::prev_match_selected(m) == m,
{
}

/// Starting a search asks for a new query, clearing it goes back to normal with nothing typed; the
/// text stays where it is, and nothing else changes.
pub proof fn law_search_started_cleared(m: StateModel)
    ensures
        navigation::search_started(m) == (StateModel {
            search: SearchModel::EnteringQuery,
            input: seq![],
            ..m
        }),
        navigation::search_cleared(m) == (StateModel {
            search: SearchModel::Normal,
            input: seq![],
            ..m
        }),
{
}

/// Searching again in another text keeps the query and does not move the text. With a line given,
/// the current match is the one nearest to it, and the first of several that are equally near; else
/// it keeps its number, as far as there are that many matches.
pub proof fn law_search_again(
    m: StateModel,
    found: Seq<SearchMatch>,
    target: Option<usize>,
    n: StateModel,
    j: int,
)
    requires
        state::state_ok(m),
        m.search is Active,
        navigation::results_rebuilt(m, found, target, n),
        0 <= j < found.len(),
    ensures
        n == (StateModel { search: n.search, ..m }),
        n.search is Active,
        n.search->query == m.search->query,
        n.search->matches == found,
        0 <= n.search->current_match < found.len(),
        match target {
            Some(line) => {
                let i = n.search->current_match;
                &&& apart(found[i].line_idx as int, line as int) <= apart(
                    found[j].line_idx as int,
                    line as int,
                )
                &&& j < i ==> apart(found[i].line_idx as int, line as int) < apart(
                    found[j].line_idx as int,
                    line as int,
                )
            },
            None => {
                let i = n.search->current_match;
                if m.search->current_match < found.len() {
                    i == m.search->current_match
                } else {
                    i == found.len() - 1
                }
            },
        },
{
}

/// Going to the next match and back, or to the previous match and back, ends at the same match.
pub proof fn law_match_back(m: StateModel)
    requires
        state::state_ok(m),
        m.search is Active,
    ensures
        navigation::prev_match_selected(navigation::next_match_selected(m)).search == m.search,
        navigation::next_match_selected(navigation::prev_match_selected(m)).search == m.search,
{
}

/// The line of a match that was gone to is visible.
pub proof fn law_match_visible(m: StateModel, i: int)
    requires
        state::state_ok(m),
        m.height > 0,
        m.search matches SearchModel::Active { matches, .. } && 0 <= i < matches.len()
            && matches[i].line_idx < m.total,
    ensures
        ({
            let n = navigation::match_selected(m, i);
            let line = m.search->matches[i].line_idx;
            n.scroll <= line < n.scroll + n.height
        }),
{
}

/// A search that finds nothing does not move the text.
pub proof fn law_no_match_no_move(m: StateModel)
    requires
        state::state_ok(m),
    ensures
        navigation::search_performed(m, seq![]) == (StateModel {
            search: SearchModel::Normal,
            ..m
        }),
{
}

// ---------------------------------------------------------------------------
// Links
// ---------------------------------------------------------------------------

/// The start of a link that got the focus is visible.
pub proof fn law_focus_visible(m: StateModel, i: int)
    requires
        state::state_ok(m),
        m.height > 0,
        0 <= i < m.links.len(),
        m.links.len() <= usize::MAX,
        m.links[i].spans[0].line_idx < m.total,
    ensures
        ({
            let n = navigation::link_focused(m, i);
            let line = m.links[i].spans[0].line_idx;
            &&& n.scroll <= line < n.scroll + n.height
            &&& navigation::focus_in_view(n)
        }),
{
    let n = navigation::link_focused(m, i);
    assert(m.links[i].wf());
    let s = n.links[i].spans[0];
    assert(n.scroll <= s.line_idx < navigation::viewport_end(n));
}

/// From a visible focus, going to the next link and back, or to the previous link and back, ends
/// at the same link.
pub proof fn law_focus_back(m: StateModel)
    requires
        state::state_ok(m),
        navigation::focus_in_view(m),
        m.links.len() <= usize::MAX,
        links::spans_within(m.links, m.total),
    ensures
        navigation::focus_moved(
            navigation::focus_moved(m, navigation::next_link(m)),
            navigation::prev_link(navigation::focus_moved(m, navigation::next_link(m))),
        ).focused == m.focused,
        navigation::focus_moved(
            navigation::focus_moved(m, navigation::prev_link(m)),
            navigation::next_link(navigation::focus_moved(m, navigation::prev_link(m))),
        ).focused == m.focused,
{
    let f = m.focused->0 as int;
    let len = m.links.len() as int;
    let next = if f + 1 < len {
        f + 1
    } else {
        0
    };
    let prev = if f == 0 {
        len - 1
    } else {
        f - 1
    };
    assert(m.links[next].wf() && m.links[prev].wf());
    assert(m.links[next].spans[0].line_idx < m.total);
    assert(m.links[prev].spans[0].line_idx < m.total);
    law_focus_visible(m, next);
    law_focus_visible(m, prev);
}

/// Without a visible focus, the next link is the first visible one, if any is visible: there is no
/// visible link before it.
pub proof fn law_next_is_first_visible(m: StateModel, j: int)
    requires
        state::state_ok(m),
        !navigation::focus_in_view(m),
        0 <= j < m.links.len(),
        navigation::in_view(m, m.links[j]),
    ensures
        navigation::next_link(m) is Some,
        0 <= (navigation::next_link(m)->0) <= j,
        navigation::in_view(m, m.links[navigation::next_link(m)->0]),
{
    navigation::lemma_first_in_view(m, 0);
    lemma_first_before(m, 0, j);
}

proof fn lemma_first_before(m: StateModel, i: int, j: int)
    requires
        0 <= i <= j < m.links.len(),
        navigation::in_view(m, m.links[j]),
    ensures
        navigation::first_in_view(m, i) is Some,
        (navigation::first_in_view(m, i)->0) <= j,
    decreases j - i,
{
    if i < j && !navigation::in_view(m, m.links[i]) {
        lemma_first_before(m, i + 1, j);
    }
}

/// Without a visible focus, the previous link is the last visible one, if any is visible: there is
/// no visible link behind it.
pub proof fn law_prev_is_last_visible(m: StateModel, j: int)
    requires
        state::state_ok(m),
        !navigation::focus_in_view(m),
        0 <= j < m.links.len(),
        navigation::in_view(m, m.links[j]),
    ensures
        navigation::prev_link(m) is Some,
        j <= (navigation::prev_link(m)->0) < m.links.len(),
        navigation::in_view(m, m.links[navigation::prev_link(m)->0]),
{
    lemma_last_behind(m, m.links.len() as int, j);
}

proof fn lemma_last_behind(m: StateModel, i: int, j: int)
    requires
        0 <= j < i <= m.links.len(),
        navigation::in_view(m, m.links[j]),
    ensures
        navigation::last_in_view(m, i) is Some,
        j <= (navigation::last_in_view(m, i)->0) < i,
        navigation::in_view(m, m.links[navigation::last_in_view(m, i)->0]),
    decreases i,
{
    if !navigation::in_view(m, m.links[i - 1]) {
        lemma_last_behind(m, i - 1, j);
    }
}

proof fn lemma_none_in_view(m: StateModel, i: int)
    requires
        forall|j: int| 0 <= j < m.links.len() ==> !navigation::in_view(m, #[trigger] m.links[j]),
    ensures
        0 <= i <= m.links.len() ==> navigation::first_in_view(m, m.links.len() - i) is None,
        0 <= i <= m.links.len() ==> navigation::last_in_view(m, i) is None,
    decreases i,
{
    if 0 < i <= m.links.len() {
        lemma_none_in_view(m, i - 1);
    }
}

/// A link is in view exactly if one of its spans is on a line of the viewport.
pub proof fn law_link_in_view(m: StateModel, l: LinkModel)
    ensures
        navigation::in_view(m, l) <==> exists|s: int|
            0 <= s < l.spans.len() && shown(m, (#[trigger] l.spans[s]).line_idx as int),
{
    if exists|s: int| 0 <= s < l.spans.len() && shown(m, (#[trigger] l.spans[s]).line_idx as int) {
        let s = choose|s: int|
            0 <= s < l.spans.len() && shown(m, (#[trigger] l.spans[s]).line_idx as int);
        assert(m.scroll <= l.spans[s].line_idx < navigation::viewport_end(m));
    }
}

/// From a visible focus the focus goes round: behind the last link comes the first. Without a
/// visible link it goes on from the focused one, or starts at the first or the last.
pub proof fn law_focus_goes_round(m: StateModel)
    requires
        state::state_ok(m),
        m.links.len() > 0,
        navigation::focus_in_view(m) || forall|j: int|
            0 <= j < m.links.len() ==> !navigation::in_view(m, #[trigger] m.links[j]),
    ensures
        ({
            let len = m.links.len() as int;
            match m.focused {
                Some(f) => {
                    &&& navigation::next_link(m) == Some((f + 1) % len)
                    &&& navigation::prev_link(m) == Some((f + len - 1) % len)
                },
                None => {
                    &&& navigation::next_link(m) == Some(0int)
                    &&& navigation::prev_link(m) == Some(len - 1)
                },
            }
        }),
{
    let len = m.links.len() as int;
    if !navigation::focus_in_view(m) {
        lemma_none_in_view(m, len);
    }
    if let Some(f) = m.focused {
        assert(f < len);
        if f + 1 < len {
            assert((f + 1) % len == f + 1) by (nonlinear_arith)
                requires
                    0 <= f,
                    f + 1 < len,
            ;
        } else {
            assert((f + 1) % len == 0) by (nonlinear_arith)
                requires
                    f + 1 == len,
                    0 < len,
            ;
        }
        if f == 0 {
            assert((f + len - 1) % len == len - 1) by (nonlinear_arith)
                requires
                    f == 0,
                    0 < len,
            ;
        } else {
            assert((f + len - 1) % len == f - 1) by (nonlinear_arith)
                requires
                    0 < f < len,
            ;
        }
    }
}

/// Without links there is none to go to, and the focus stays as it is.
pub proof fn law_no_links_no_focus(m: StateModel)
    requires
        m.links.len() == 0,
        m.focused is None,
    ensures
        navigation::focus_moved(m, navigation::next_link(m)) == m,
        navigation::focus_moved(m, navigation::prev_link(m)) == m,
{
}

/// Giving a link the focus scrolls no further than it must: not at all where its first line is
/// shown, else so that it is the first or the last line that is shown, if the text can be scrolled
/// so. Nothing but the focus and the offset changes.
pub proof fn law_focus_scrolls_least(m: StateModel, i: int)
    requires
        state::state_ok(m),
        m.height > 0,
        0 <= i < m.links.len(),
        m.links.len() <= usize::MAX,
        m.links[i].spans[0].line_idx < m.total,
    ensures
        ({
            let n = navigation::link_focused(m, i);
            let line = m.links[i].spans[0].line_idx as int;
            let there = StateModel { focused: Some(i as usize), ..m };
            &&& n.focused == Some(i as usize)
            &&& shown(m, line) ==> n == there
            &&& line < m.scroll ==> scrolled_near(there, line, n)
            &&& line >= m.scroll + m.height ==> scrolled_near(there, line - m.height + 1, n)
        }),
{
    reveal(scrolled_near);
}

/// Clicking a link gives it the focus; clicking beside the links changes nothing.
pub proof fn law_click_focuses(m: StateModel, line: int, column: int)
    requires
        state::state_ok(m),
        m.links.len() <= usize::MAX,
    ensures
        ({
            let n = navigation::link_clicked(m, line, column);
            if exists|i: int|
                0 <= i < m.links.len() && links::link_covers(#[trigger] m.links[i], line, column) {
                &&& n.focused matches Some(f)
                &&& f < m.links.len()
                &&& links::link_covers(m.links[f as int], line, column)
                &&& n == (StateModel { focused: n.focused, scroll: n.scroll, ..m })
                &&& shown(m, m.links[f as int].spans[0].line_idx as int) ==> n.scroll == m.scroll
            } else {
                n == m
            }
        }),
{
    lemma_link_at(m.links, line, column, 0);
}

/// Where links overlap, the first of them is pointed at.
pub proof fn law_first_link_pointed_at(m: StateModel, line: int, column: int, j: int)
    requires
        m.links.len() <= usize::MAX,
        0 <= j < m.links.len(),
        links::link_covers(m.links[j], line, column),
    ensures
        navigation::link_hovered(m, line, column).hovered matches Some(i) && i <= j,
        navigation::link_hovered(m, line, column) == (StateModel {
            hovered: navigation::link_hovered(m, line, column).hovered,
            ..m
        }),
{
    lemma_first_covering(m.links, line, column, 0, j);
}

proof fn lemma_first_covering(all: Seq<LinkModel>, line: int, column: int, i: int, j: int)
    requires
        0 <= i <= j < all.len(),
        all.len() <= usize::MAX,
        links::link_covers(all[j], line, column),
    ensures
        navigation::link_at(all, line, column, i) matches Some(k) && k <= j,
    decreases j - i,
{
    if i < j && !links::link_covers(all[i], line, column) {
        lemma_first_covering(all, line, column, i + 1, j);
    }
}

/// A link covers a place exactly if one of its spans is on that line and holds that column; a span
/// ends before its end column.
pub proof fn law_covered_places(l: LinkModel, line: int, column: int)
    requires
        l.wf(),
    ensures
        links::link_covers(l, line, column) <==> exists|s: int|
            {
                &&& 0 <= s < l.spans.len()
                &&& (#[trigger] l.spans[s]).line_idx == line
                &&& l.spans[s].start_col <= column < l.spans[s].end_col
            },
{
    if links::link_covers(l, line, column) {
        let s = choose|s: int|
            0 <= s < l.spans.len() && links::covers_column(#[trigger] l.spans[s], line, column);
        assert(l.spans[s].line_idx == line);
    }
}

/// The address of the focused or hovered link is that of the link, and without one there is none.
pub proof fn law_link_addresses(m: StateModel, i: usize)
    requires
        i < m.links.len(),
    ensures
        m.focused == Some(i) ==> navigation::focused_url(m) == Some(m.links[i as int].url),
        m.hovered == Some(i) ==> navigation::hovered_url(m) == Some(m.links[i as int].url),
        m.focused is None ==> navigation::focused_url(m) is None,
        m.hovered is None ==> navigation::hovered_url(m) is None,
{
}

/// A link that is found again in another text is the same link: it has the same id, or, where one
/// of the two has none, the same address at the same place. It is the first such link.
pub proof fn law_link_found_again(m: StateModel, new_links: Seq<LinkModel>, i: usize)
    requires
        m.focused == Some(i),
        i < m.links.len(),
        new_links.len() <= usize::MAX,
    ensures
        ({
            let n = navigation::links_rebuilt(m, new_links);
            let l = m.links[i as int];
            &&& n == (StateModel { links: new_links, focused: n.focused, hovered: n.hovered, ..m })
            &&& match n.focused {
                Some(f) => {
                    &&& f < new_links.len()
                    &&& same_again(l, new_links[f as int])
                    &&& forall|j: int|
                        0 <= j < f ==> !same_again(l, #[trigger] new_links[j])
                },
                None => forall|j: int|
                    0 <= j < new_links.len() ==> !same_again(l, #[trigger] new_links[j]),
            }
        }),
{
    lemma_same_link_in(new_links, m.links[i as int], 0);
}

/// Whether two links are one link in different texts.
pub open spec fn same_again(a: LinkModel, b: LinkModel) -> bool {
    if a.id is Some && b.id is Some {
        a.id == b.id
    } else {
        &&& a.url == b.url
        &&& a.spans[0].line_idx == b.spans[0].line_idx
        &&& a.spans[0].start_char == b.spans[0].start_char
    }
}

proof fn lemma_same_link_in(all: Seq<LinkModel>, l: LinkModel, i: int)
    requires
        0 <= i,
        all.len() <= usize::MAX,
    ensures
        match navigation::same_link_in(all, l, i) {
            Some(k) => {
                &&& i <= k < all.len()
                &&& same_again(l, all[k as int])
                &&& forall|j: int| i <= j < k ==> !same_again(l, #[trigger] all[j])
            },
            None => forall|j: int| i <= j < all.len() ==> !same_again(l, #[trigger] all[j]),
        },
    decreases all.len() - i,
{
    if i < all.len() && !navigation::same_link(all[i], l) {
        lemma_same_link_in(all, l, i + 1);
    }
}

/// The link that a click focuses, or that is hovered, covers the place of the pointer.
pub proof fn law_pointed_link_covers(m: StateModel, line: int, column: int)
    requires
        m.links.len() <= usize::MAX,
    ensures
        match navigation::link_hovered(m, line, column).hovered {
            Some(i) => i < m.links.len() && links::link_covers(m.links[i as int], line, column),
            None => forall|i: int|
                0 <= i < m.links.len() ==> !links::link_covers(
                    #[trigger] m.links[i],
                    line,
                    column,
                ),
        },
{
    lemma_link_at(m.links, line, column, 0);
}

proof fn lemma_link_at(all: Seq<LinkModel>, line: int, column: int, i: int)
    requires
        0 <= i,
        all.len() <= usize::MAX,
    ensures
        match navigation::link_at(all, line, column, i) {
            Some(k) => i <= k < all.len() && links::link_covers(all[k as int], line, column),
            None => forall|j: int|
                i <= j < all.len() ==> !links::link_covers(#[trigger] all[j], line, column),
        },
    decreases all.len() - i,
{
    if i < all.len() {
        lemma_link_at(all, line, column, i + 1);
    }
}

} // verus!
