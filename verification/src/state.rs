//! The state of the pager: what is shown, what is being searched, which link is focused, and what
//! is being dragged.
use vstd::prelude::*;
use vstd::string::*;
use crate::ansi;
use crate::links;
use crate::links::{LinkInfo, LinkModel};
use crate::search::SearchMatch;

verus! {

// ---------------------------------------------------------------------------
// Types
// ---------------------------------------------------------------------------

/// What the pager is doing about searching.
pub enum SearchMode {
    Normal,
    EnteringQuery,
    Active { query: String, matches: Vec<SearchMatch>, current_match: usize },
}

#[verifier::ext_equal]
pub enum SearchModel {
    Normal,
    EnteringQuery,
    Active { query: Seq<char>, matches: Seq<SearchMatch>, current_match: int },
}

impl View for SearchMode {
    type V = SearchModel;

    open spec fn view(&self) -> SearchModel {
        match self {
            SearchMode::Normal => SearchModel::Normal,
            SearchMode::EnteringQuery => SearchModel::EnteringQuery,
            SearchMode::Active { query, matches, current_match } => SearchModel::Active {
                query: query@,
                matches: matches@,
                current_match: *current_match as int,
            },
        }
    }
}

/// Where the knob of the scrollbar is, and how large.
#[derive(Clone, Copy, Debug, PartialEq, Eq, Structural)]
pub struct ScrollbarGeometry {
    pub knob_start: usize,
    pub knob_size: usize,
}

/// What the pointer is dragging.
#[derive(Clone, Copy, Debug, PartialEq, Eq, Structural)]
pub enum DragState {
    /// The knob of the scrollbar, held `anchor_within_knob` rows below its top.
    Scrollbar { anchor_within_knob: usize },
    /// The text, held since the pointer was at `origin_row` and the text at
    /// `origin_scroll_offset`.
    Content { origin_row: usize, origin_scroll_offset: usize },
}

pub struct PagerState {
    pub scroll_offset: usize,
    pub total_lines: usize,
    pub viewport_height: usize,
    pub search_mode: SearchMode,
    pub search_input: String,
    pub last_terminal_height: usize,
    pub last_terminal_width: usize,
    pub links: Vec<LinkInfo>,
    pub focused_link: Option<usize>,
    pub hovered_link: Option<usize>,
    pub drag_state: Option<DragState>,
    pub filename: Option<String>,
    pub cell_h: usize,
}

#[verifier::ext_equal]
pub struct StateModel {
    pub scroll: int,
    pub total: int,
    pub height: int,
    pub search: SearchModel,
    pub input: Seq<char>,
    pub last_terminal_height: int,
    pub last_terminal_width: int,
    pub links: Seq<LinkModel>,
    pub focused: Option<usize>,
    pub hovered: Option<usize>,
    pub drag: Option<DragState>,
    pub filename: Option<Seq<char>>,
    pub cell_h: int,
}

impl View for PagerState {
    type V = StateModel;

    open spec fn view(&self) -> StateModel {
        StateModel {
            scroll: self.scroll_offset as int,
            total: self.total_lines as int,
            height: self.viewport_height as int,
            search: self.search_mode@,
            input: self.search_input@,
            last_terminal_height: self.last_terminal_height as int,
            last_terminal_width: self.last_terminal_width as int,
            links: links::link_models(self.links@),
            focused: self.focused_link,
            hovered: self.hovered_link,
            drag: self.drag_state,
            filename: ansi::opt_text(self.filename),
            cell_h: self.cell_h as int,
        }
    }
}

// ---------------------------------------------------------------------------
// Well-formedness
// ---------------------------------------------------------------------------

/// The largest number of rows that a terminal can have.
pub const MAX_ROWS: usize = 0xffff;

/// The numbers that are computed from a number of lines and a viewport height are machine numbers.
pub open spec fn limits(total: int, height: int) -> bool {
    &&& 0 <= height <= MAX_ROWS
    &&& 0 <= total
    &&& (total + 1) * height <= usize::MAX
    &&& (total + 1) * 100 <= usize::MAX
}

/// The largest scroll offset: the last lines fill the viewport.
pub open spec fn max_scroll_of(total: int, height: int) -> int {
    let h = if height == 0 {
        1
    } else {
        height
    };
    if total >= h {
        total - h
    } else {
        0
    }
}

pub open spec fn max_scroll(m: StateModel) -> int {
    max_scroll_of(m.total, m.height)
}

/// A search in progress has a current match.
pub open spec fn search_ok(s: SearchModel) -> bool {
    match s {
        SearchModel::Active { query, matches, current_match } => 0 <= current_match
            < matches.len(),
        _ => true,
    }
}

pub open spec fn index_ok(idx: Option<usize>, len: int) -> bool {
    match idx {
        Some(i) => i < len,
        None => true,
    }
}

/// What always holds of the state: the text is scrolled no further than its end, a search in
/// progress has a current match, links cover something, and focus and hover are on links.
pub open spec fn state_ok(m: StateModel) -> bool {
    &&& limits(m.total, m.height)
    &&& 0 <= m.scroll <= max_scroll(m)
    &&& search_ok(m.search)
    &&& links::links_wf(m.links)
    &&& index_ok(m.focused, m.links.len() as int)
    &&& index_ok(m.hovered, m.links.len() as int)
    &&& 0 <= m.last_terminal_height <= MAX_ROWS
}

impl PagerState {
    pub open spec fn wf(self) -> bool {
        state_ok(self@)
    }
}

/// Whether the numbers that are computed from a number of lines and a viewport height are machine
/// numbers.
pub fn limits_hold(total_lines: usize, viewport_height: usize) -> (r: bool)
    ensures
        r == limits(total_lines as int, viewport_height as int),
{
    if viewport_height > MAX_ROWS {
        return false;
    }
    match total_lines.checked_add(1) {
        Some(n) => n.checked_mul(viewport_height).is_some() && n.checked_mul(100).is_some(),
        None => false,
    }
}

/// `m` scrolled to `scroll`, or as far as possible.
pub open spec fn scrolled_to(m: StateModel, scroll: int) -> StateModel {
    StateModel {
        scroll: if scroll > max_scroll(m) {
            max_scroll(m)
        } else {
            scroll
        },
        ..m
    }
}

/// `a - b`, or 0 where that is negative.
pub open spec fn minus(a: int, b: int) -> int {
    if a >= b {
        a - b
    } else {
        0
    }
}

// ---------------------------------------------------------------------------
// Creation and scrolling
// ---------------------------------------------------------------------------

/// The state at the start.
pub open spec fn initial(total: int, height: int) -> StateModel {
    StateModel {
        scroll: 0,
        total,
        height,
        search: SearchModel::Normal,
        input: seq![],
        last_terminal_height: 0,
        last_terminal_width: 0,
        links: seq![],
        focused: None,
        hovered: None,
        drag: None,
        filename: None,
        cell_h: 16,
    }
}

pub open spec fn scrolled_down(m: StateModel) -> StateModel {
    scrolled_to(m, m.scroll + 1)
}

pub open spec fn scrolled_up(m: StateModel) -> StateModel {
    StateModel { scroll: minus(m.scroll, 1), ..m }
}

pub open spec fn paged_down(m: StateModel) -> StateModel {
    scrolled_to(m, m.scroll + m.height)
}

pub open spec fn paged_up(m: StateModel) -> StateModel {
    StateModel { scroll: minus(m.scroll, m.height), ..m }
}

pub open spec fn half_paged_down(m: StateModel) -> StateModel {
    scrolled_to(m, m.scroll + m.height / 2)
}

pub open spec fn half_paged_up(m: StateModel) -> StateModel {
    StateModel { scroll: minus(m.scroll, m.height / 2), ..m }
}

pub open spec fn at_start(m: StateModel) -> StateModel {
    StateModel { scroll: 0, ..m }
}

pub open spec fn at_end(m: StateModel) -> StateModel {
    StateModel { scroll: max_scroll(m), ..m }
}

/// The state with another viewport height, scrolled back where it would show too much.
pub open spec fn with_height(m: StateModel, height: int) -> StateModel {
    let n = StateModel { height, ..m };
    scrolled_to(n, n.scroll)
}

/// The state after the terminal was resized: the line `center` is put into the middle of the new
/// viewport, as far as possible.
pub open spec fn resized(m: StateModel, height: int, center: int) -> StateModel {
    let n = StateModel { height, ..m };
    scrolled_to(n, minus(center, height / 2))
}

/// The line in the middle of the viewport.
pub open spec fn center_line(m: StateModel) -> int {
    m.scroll + m.height / 2
}

fn sat_sub(a: usize, b: usize) -> (r: usize)
    ensures
        r == minus(a as int, b as int),
{
    if a >= b {
        a - b
    } else {
        0
    }
}

impl PagerState {
    pub fn new(total_lines: usize, viewport_height: usize) -> (r: Self)
        requires
            limits(total_lines as int, viewport_height as int),
        ensures
            r@ == initial(total_lines as int, viewport_height as int),
            r.wf(),
    {
        let r = PagerState {
            scroll_offset: 0,
            total_lines,
            viewport_height,
            search_mode: SearchMode::Normal,
            search_input: String::new(),
            last_terminal_height: 0,
            last_terminal_width: 0,
            links: Vec::new(),
            focused_link: None,
            hovered_link: None,
            drag_state: None,
            filename: None,
            cell_h: 16,
        };
        assert(r@ =~= initial(total_lines as int, viewport_height as int));
        r
    }

    pub fn max_scroll(&self) -> (r: usize)
        ensures
            r == max_scroll(self@),
    {
        if self.viewport_height == 0 {
            sat_sub(self.total_lines, 1)
        } else {
            sat_sub(self.total_lines, self.viewport_height)
        }
    }

    pub fn clamp_scroll(&mut self)
        ensures
            final(self)@ == scrolled_to(old(self)@, old(self)@.scroll),
    {
        let max = self.max_scroll();
        if self.scroll_offset > max {
            self.scroll_offset = max;
        }
    }

    pub fn update_viewport_height(&mut self, height: usize)
        requires
            old(self).wf(),
            limits(old(self)@.total, height as int),
        ensures
            final(self)@ == with_height(old(self)@, height as int),
            final(self).wf(),
    {
        self.viewport_height = height;
        self.clamp_scroll();
    }

    /// Takes over a new number of lines and a new terminal size: one row is the status line.
    pub fn fit_terminal(&mut self, total_lines: usize, width: usize, height: usize)
        requires
            old(self).wf(),
            limits(total_lines as int, minus(height as int, 1)),
            height <= MAX_ROWS,
        ensures
            final(self)@ == with_height(
                StateModel {
                    total: total_lines as int,
                    last_terminal_width: width as int,
                    last_terminal_height: height as int,
                    ..old(self)@
                },
                minus(height as int, 1),
            ),
            final(self).wf(),
    {
        self.last_terminal_height = height;
        self.last_terminal_width = width;
        self.total_lines = total_lines;
        self.viewport_height = sat_sub(height, 1);
        self.clamp_scroll();
    }

    /// The line in the middle of the viewport.
    pub fn center_line(&self) -> (r: usize)
        requires
            self.wf(),
        ensures
            r == center_line(self@),
    {
        self.scroll_offset + self.viewport_height / 2
    }

    /// Takes over a new viewport height, with the line `center` in the middle as far as possible.
    pub fn resize(&mut self, height: usize, center: usize)
        requires
            old(self).wf(),
            limits(old(self)@.total, height as int),
        ensures
            final(self)@ == resized(old(self)@, height as int, center as int),
            final(self).wf(),
    {
        self.viewport_height = height;
        self.scroll_offset = sat_sub(center, height / 2);
        self.clamp_scroll();
    }

    pub fn scroll_down(&mut self)
        requires
            old(self).wf(),
        ensures
            final(self)@ == scrolled_down(old(self)@),
            final(self).wf(),
    {
        if self.scroll_offset < self.max_scroll() {
            self.scroll_offset += 1;
        }
    }

    pub fn scroll_up(&mut self)
        requires
            old(self).wf(),
        ensures
            final(self)@ == scrolled_up(old(self)@),
            final(self).wf(),
    {
        if self.scroll_offset > 0 {
            self.scroll_offset -= 1;
        }
    }

    pub fn page_down(&mut self)
        requires
            old(self).wf(),
        ensures
            final(self)@ == paged_down(old(self)@),
            final(self).wf(),
    {
        self.scroll_offset = self.scroll_offset + self.viewport_height;
        self.clamp_scroll();
    }

    pub fn page_up(&mut self)
        requires
            old(self).wf(),
        ensures
            final(self)@ == paged_up(old(self)@),
            final(self).wf(),
    {
        self.scroll_offset = sat_sub(self.scroll_offset, self.viewport_height);
    }

    pub fn half_page_down(&mut self)
        requires
            old(self).wf(),
        ensures
            final(self)@ == half_paged_down(old(self)@),
            final(self).wf(),
    {
        self.scroll_offset = self.scroll_offset + self.viewport_height / 2;
        self.clamp_scroll();
    }

    pub fn half_page_up(&mut self)
        requires
            old(self).wf(),
        ensures
            final(self)@ == half_paged_up(old(self)@),
            final(self).wf(),
    {
        self.scroll_offset = sat_sub(self.scroll_offset, self.viewport_height / 2);
    }

    pub fn jump_to_start(&mut self)
        requires
            old(self).wf(),
        ensures
            final(self)@ == at_start(old(self)@),
            final(self).wf(),
    {
        self.scroll_offset = 0;
    }

    pub fn jump_to_end(&mut self)
        requires
            old(self).wf(),
        ensures
            final(self)@ == at_end(old(self)@),
            final(self).wf(),
    {
        self.scroll_offset = self.max_scroll();
    }
}

// ---------------------------------------------------------------------------
// Scrollbar
// ---------------------------------------------------------------------------

/// The size of the knob: the part of the text that is visible, as a part of the scrollbar; at
/// least one row.
pub open spec fn knob_size(total: int, height: int) -> int {
    let s = (height * height) / total;
    if s < 1 {
        1
    } else if s > height {
        height
    } else {
        s
    }
}

/// The first row of the knob.
pub open spec fn knob_start(scroll: int, total: int, height: int) -> int {
    let travel = height - knob_size(total, height);
    (scroll * travel) / (total - height)
}

/// Where the knob is; there is none where the text fits the viewport.
pub open spec fn geometry(m: StateModel) -> Option<(int, int)> {
    if m.height == 0 || m.total <= m.height {
        None
    } else {
        Some((knob_start(m.scroll, m.total, m.height), knob_size(m.total, m.height)))
    }
}

/// The scroll offset for which a knob of the given size starts at the given row, rounded to the
/// nearest.
pub open spec fn scroll_for_knob(m: StateModel, start: int, size: int) -> int {
    let max = max_scroll(m);
    let travel = minus(m.height, size);
    if max == 0 {
        0
    } else if travel == 0 {
        if m.scroll <= max {
            m.scroll
        } else {
            max
        }
    } else {
        let s = if start <= travel {
            start
        } else {
            travel
        };
        (s * max + travel / 2) / travel
    }
}

pub open spec fn smaller(a: int, b: int) -> int {
    if a <= b {
        a
    } else {
        b
    }
}

/// The row where the knob starts if it is held `anchor` rows below its top by a pointer at `row`.
pub open spec fn knob_target(row: int, anchor: int, height: int, size: int) -> int {
    smaller(minus(row, anchor), minus(height, size))
}

/// Where a knob that was grabbed at `row` is held: where the pointer is if it is on the knob, else
/// in the middle.
pub open spec fn grab_anchor(row: int, start: int, size: int) -> int {
    if start <= row < start + size {
        row - start
    } else {
        smaller(size / 2, size - 1)
    }
}

/// The state after the scrollbar was grabbed at `row`: outside of the knob the knob jumps to the
/// pointer.
pub open spec fn scrollbar_grabbed(m: StateModel, row: int) -> StateModel {
    match geometry(m) {
        None => StateModel { drag: None, ..m },
        Some((start, size)) => {
            let anchor = grab_anchor(row, start, size);
            StateModel {
                scroll: if start <= row < start + size {
                    m.scroll
                } else {
                    scroll_for_knob(m, knob_target(row, anchor, m.height, size), size)
                },
                drag: Some(DragState::Scrollbar { anchor_within_knob: anchor as usize }),
                ..m
            }
        },
    }
}

/// The state after the grabbed scrollbar was dragged to `row`.
pub open spec fn scrollbar_dragged(m: StateModel, row: int) -> StateModel {
    match (m.drag, geometry(m)) {
        (Some(DragState::Scrollbar { anchor_within_knob }), Some((start, size))) => {
            let anchor = smaller(anchor_within_knob as int, size - 1);
            StateModel {
                scroll: scroll_for_knob(m, knob_target(row, anchor, m.height, size), size),
                ..m
            }
        },
        _ => m,
    }
}

/// The state after the grabbed text was dragged to `row`: it moves with the pointer.
pub open spec fn content_dragged(m: StateModel, row: int) -> StateModel {
    match m.drag {
        Some(DragState::Content { origin_row, origin_scroll_offset }) => {
            let to = origin_scroll_offset - (row - origin_row);
            StateModel {
                scroll: if to < 0 {
                    0
                } else {
                    smaller(to, max_scroll(m))
                },
                ..m
            }
        },
        _ => m,
    }
}

/// The state after a drag went on to `row`.
pub open spec fn dragged(m: StateModel, row: int) -> StateModel {
    match m.drag {
        Some(DragState::Scrollbar { .. }) => scrollbar_dragged(m, row),
        Some(DragState::Content { .. }) => content_dragged(m, row),
        None => m,
    }
}

/// The knob lies within the scrollbar.
pub proof fn law_knob_inside(m: StateModel)
    requires
        state_ok(m),
        geometry(m) is Some,
    ensures
        ({
            let (start, size) = geometry(m)->0;
            &&& 1 <= size <= m.height
            &&& 0 <= start
            &&& start + size <= m.height
        }),
{
    let size = knob_size(m.total, m.height);
    let travel = m.height - size;
    let max = m.total - m.height;
    let scroll = m.scroll;
    let (height, total) = (m.height, m.total);
    assert(0 <= (height * height) / total) by (nonlinear_arith)
        requires
            height > 0,
            total > 0,
    ;
    assert(0 <= (scroll * travel) / max <= travel) by (nonlinear_arith)
        requires
            0 <= scroll <= max,
            max > 0,
            travel >= 0,
    ;
}

/// At the start of the text the knob is at the top of the scrollbar, at the end it is at the
/// bottom.
pub proof fn law_knob_ends(m: StateModel)
    requires
        state_ok(m),
        geometry(m) is Some,
    ensures
        m.scroll == 0 ==> (geometry(m)->0).0 == 0,
        m.scroll == max_scroll(m) ==> (geometry(m)->0).0 + (geometry(m)->0).1 == m.height,
{
    let travel = m.height - knob_size(m.total, m.height);
    let max = m.total - m.height;
    assert((0 * travel) / max == 0) by (nonlinear_arith)
        requires
            max > 0,
    ;
    assert((max * travel) / max == travel) by (nonlinear_arith)
        requires
            max > 0,
    ;
}

/// Dragging the knob never scrolls past the end: the offset for any position of the knob is within
/// the text. The top position is the start of the text, the bottom position its end.
pub proof fn law_scroll_for_knob(m: StateModel, start: int, size: int)
    requires
        state_ok(m),
        0 <= start,
        0 <= size,
    ensures
        0 <= scroll_for_knob(m, start, size) <= max_scroll(m),
        size < m.height && start == 0 ==> scroll_for_knob(m, start, size) == 0,
        size < m.height && start >= m.height - size ==> scroll_for_knob(m, start, size)
            == max_scroll(m),
{
    let max = max_scroll(m);
    let travel = minus(m.height, size);
    if max > 0 && travel > 0 {
        let s = smaller(start, travel);
        assert(0 <= (s * max + travel / 2) / travel <= max) by (nonlinear_arith)
            requires
                0 <= s <= travel,
                max > 0,
                travel > 0,
        ;
        assert((0 * max + travel / 2) / travel == 0) by (nonlinear_arith)
            requires
                travel > 0,
        ;
        assert((travel * max + travel / 2) / travel == max) by (nonlinear_arith)
            requires
                travel > 0,
        ;
    }
}

/// Products of a scroll offset or a knob position stay within the limits.
proof fn lemma_products(m: StateModel)
    requires
        limits(m.total, m.height),
        0 <= m.height,
        0 <= m.total,
    ensures
        m.height * m.height <= usize::MAX,
        forall|a: int, b: int|
            0 <= a <= m.total && 0 <= b <= m.height ==> #[trigger] (a * b) + m.height
                <= usize::MAX && b * a == a * b,
{
    let (h, t) = (m.height, m.total);
    assert(h * h <= 0xffff * 0xffff) by (nonlinear_arith)
        requires
            0 <= h <= 0xffff,
    ;
    assert forall|a: int, b: int| 0 <= a <= m.total && 0 <= b <= m.height implies #[trigger] (a
        * b) + m.height <= usize::MAX && b * a == a * b by {
        assert(a * b + h <= (t + 1) * h && b * a == a * b) by (nonlinear_arith)
            requires
                0 <= a <= t,
                0 <= b <= h,
        ;
    }
}

impl PagerState {
    /// The column of the scrollbar: the last one.
    pub fn scrollbar_column(&self) -> (r: Option<usize>)
        ensures
            r == (if self@.last_terminal_width == 0 {
                None
            } else {
                Some((self@.last_terminal_width - 1) as usize)
            }),
    {
        if self.last_terminal_width == 0 {
            None
        } else {
            Some(self.last_terminal_width - 1)
        }
    }

    pub fn scrollbar_geometry(&self) -> (r: Option<ScrollbarGeometry>)
        requires
            self.wf(),
        ensures
            match r {
                Some(g) => geometry(self@) == Some((g.knob_start as int, g.knob_size as int)) && 1
                    <= g.knob_size && g.knob_start + g.knob_size <= self.viewport_height,
                None => geometry(self@) is None,
            },
    {
        if self.viewport_height == 0 || self.total_lines <= self.viewport_height {
            return None;
        }
        proof {
            lemma_products(self@);
            law_knob_inside(self@);
        }
        let mut size: usize = (self.viewport_height * self.viewport_height) / self.total_lines;
        if size < 1 {
            size = 1;
        }
        if size > self.viewport_height {
            size = self.viewport_height;
        }
        assert(size == knob_size(self@.total, self@.height));
        let max: usize = self.total_lines - self.viewport_height;
        let travel: usize = self.viewport_height - size;
        assert(self@.scroll * (travel as int) + self@.height <= usize::MAX);
        let start: usize = (self.scroll_offset * travel) / max;
        Some(ScrollbarGeometry { knob_start: start, knob_size: size })
    }

    pub fn scroll_offset_from_knob_start(&self, knob_start: usize, knob_size: usize) -> (r: usize)
        requires
            self.wf(),
        ensures
            r == scroll_for_knob(self@, knob_start as int, knob_size as int),
            r <= max_scroll(self@),
    {
        proof {
            lemma_products(self@);
            law_scroll_for_knob(self@, knob_start as int, knob_size as int);
        }
        let max = self.max_scroll();
        if max == 0 {
            return 0;
        }
        let travel = sat_sub(self.viewport_height, knob_size);
        if travel == 0 {
            return if self.scroll_offset <= max {
                self.scroll_offset
            } else {
                max
            };
        }
        let start: usize = if knob_start <= travel {
            knob_start
        } else {
            travel
        };
        assert((max as int) * (start as int) + self@.height <= usize::MAX);
        (start * max + travel / 2) / travel
    }

    /// Grabs the scrollbar at a row. Returns whether the text was scrolled.
    pub fn begin_scrollbar_drag(&mut self, pointer_row: usize) -> (r: bool)
        requires
            old(self).wf(),
        ensures
            final(self)@ == scrollbar_grabbed(old(self)@, pointer_row as int),
            final(self).wf(),
            r == (final(self)@.scroll != old(self)@.scroll),
    {
        self.drag_state = None;
        let g = match self.scrollbar_geometry() {
            Some(g) => g,
            None => return false,
        };
        let size: usize = g.knob_size;
        let start: usize = g.knob_start;
        let previous: usize = self.scroll_offset;
        let on_knob = start <= pointer_row && pointer_row - start < size;
        let anchor: usize = if on_knob {
            pointer_row - start
        } else if size / 2 <= size - 1 {
            size / 2
        } else {
            size - 1
        };
        if !on_knob {
            let travel: usize = self.viewport_height - size;
            let raw = sat_sub(pointer_row, anchor);
            let target: usize = if raw <= travel {
                raw
            } else {
                travel
            };
            self.scroll_offset = self.scroll_offset_from_knob_start(target, size);
        }
        self.drag_state = Some(DragState::Scrollbar { anchor_within_knob: anchor });
        previous != self.scroll_offset
    }

    /// Drags the grabbed scrollbar to a row. Returns whether the text was scrolled.
    pub fn update_scrollbar_drag(&mut self, pointer_row: usize) -> (r: bool)
        requires
            old(self).wf(),
        ensures
            final(self)@ == scrollbar_dragged(old(self)@, pointer_row as int),
            final(self).wf(),
            r == (final(self)@.scroll != old(self)@.scroll),
    {
        let held: usize = match self.drag_state {
            Some(DragState::Scrollbar { anchor_within_knob }) => anchor_within_knob,
            _ => return false,
        };
        let g = match self.scrollbar_geometry() {
            Some(g) => g,
            None => return false,
        };
        let size: usize = g.knob_size;
        let travel: usize = self.viewport_height - size;
        let anchor: usize = if held <= size - 1 {
            held
        } else {
            size - 1
        };
        let raw = sat_sub(pointer_row, anchor);
        let target: usize = if raw <= travel {
            raw
        } else {
            travel
        };
        let scroll = self.scroll_offset_from_knob_start(target, size);
        let changed = scroll != self.scroll_offset;
        self.scroll_offset = scroll;
        changed
    }

    /// Grabs the text at a row.
    pub fn begin_content_drag(&mut self, pointer_row: usize)
        requires
            old(self).wf(),
        ensures
            final(self)@ == (StateModel {
                drag: Some(
                    DragState::Content {
                        origin_row: pointer_row,
                        origin_scroll_offset: old(self)@.scroll as usize,
                    },
                ),
                ..old(self)@
            }),
            final(self).wf(),
    {
        self.drag_state = Some(
            DragState::Content {
                origin_row: pointer_row,
                origin_scroll_offset: self.scroll_offset,
            },
        );
    }

    /// Drags the grabbed text to a row. Returns whether the text was scrolled.
    pub fn update_content_drag(&mut self, pointer_row: usize) -> (r: bool)
        requires
            old(self).wf(),
        ensures
            final(self)@ == content_dragged(old(self)@, pointer_row as int),
            final(self).wf(),
            r == (final(self)@.scroll != old(self)@.scroll),
    {
        let (origin_row, origin): (usize, usize) = match self.drag_state {
            Some(DragState::Content { origin_row, origin_scroll_offset }) => (
                origin_row,
                origin_scroll_offset,
            ),
            _ => return false,
        };
        let max = self.max_scroll();
        let to: usize = if pointer_row >= origin_row {
            sat_sub(origin, pointer_row - origin_row)
        } else {
            let up: usize = origin_row - pointer_row;
            if origin <= max && up <= max - origin {
                origin + up
            } else {
                max
            }
        };
        let scroll: usize = if to <= max {
            to
        } else {
            max
        };
        let changed = scroll != self.scroll_offset;
        self.scroll_offset = scroll;
        changed
    }

    pub fn end_drag(&mut self)
        ensures
            final(self)@ == (StateModel { drag: None, ..old(self)@ }),
    {
        self.drag_state = None;
    }

    pub fn is_dragging(&self) -> (r: bool)
        ensures
            r == (self@.drag is Some),
    {
        self.drag_state.is_some()
    }

    /// Goes on with a drag. Returns whether the text was scrolled.
    pub fn update_drag(&mut self, pointer_row: usize) -> (r: bool)
        requires
            old(self).wf(),
        ensures
            final(self)@ == dragged(old(self)@, pointer_row as int),
            final(self).wf(),
            r == (final(self)@.scroll != old(self)@.scroll),
    {
        match self.drag_state {
            Some(DragState::Scrollbar { .. }) => self.update_scrollbar_drag(pointer_row),
            Some(DragState::Content { .. }) => self.update_content_drag(pointer_row),
            None => false,
        }
    }

    pub fn dragging_scrollbar(&self) -> (r: bool)
        ensures
            r == (self@.drag matches Some(DragState::Scrollbar { .. })),
    {
        match self.drag_state {
            Some(DragState::Scrollbar { .. }) => true,
            _ => false,
        }
    }
}

} // verus!
