//! Moving between search matches and between links.
use vstd::prelude::*;
use vstd::string::*;
use crate::ansi;
use crate::ansi::ParsedLine;
use crate::links;
use crate::links::{collect_links, LinkInfo, LinkModel};
use crate::search;
use crate::search::{find_search_matches, try_find_search_matches, SearchMatch};
use crate::state;
use crate::state::{PagerState, SearchMode, SearchModel, StateModel};
use crate::strings::same_text;

verus! {

// ---------------------------------------------------------------------------
// Search
// ---------------------------------------------------------------------------

/// The state with line `line` in the middle of the viewport, as far as possible.
pub open spec fn centered_on(m: StateModel, line: int) -> StateModel {
    state::scrolled_to(m, state::minus(line, m.height / 2))
}

/// The state in which a query is being typed.
pub open spec fn search_started(m: StateModel) -> StateModel {
    StateModel { search: SearchModel::EnteringQuery, input: seq![], ..m }
}

/// The state after the typed query was searched for and the given matches were found: the first
/// match becomes the current one and is shown; without matches the search ends.
pub open spec fn search_performed(m: StateModel, matches: Seq<SearchMatch>) -> StateModel {
    if m.input.len() == 0 || matches.len() == 0 {
        StateModel { search: SearchModel::Normal, ..m }
    } else {
        StateModel {
            search: SearchModel::Active { query: m.input, matches, current_match: 0 },
            ..centered_on(m, matches[0].line_idx as int)
        }
    }
}

/// The state with another current match, which is shown.
pub open spec fn match_selected(m: StateModel, i: int) -> StateModel {
    match m.search {
        SearchModel::Active { query, matches, current_match } => StateModel {
            search: SearchModel::Active { query, matches, current_match: i },
            ..centered_on(m, matches[i].line_idx as int)
        },
        _ => m,
    }
}

/// The state after going to the next match, from the last to the first.
pub open spec fn next_match_selected(m: StateModel) -> StateModel {
    match m.search {
        SearchModel::Active { query, matches, current_match } => match_selected(
            m,
            if current_match + 1 < matches.len() {
                current_match + 1
            } else {
                0
            },
        ),
        _ => m,
    }
}

/// The state after going to the previous match, from the first to the last.
pub open spec fn prev_match_selected(m: StateModel) -> StateModel {
    match m.search {
        SearchModel::Active { query, matches, current_match } => match_selected(
            m,
            if current_match == 0 {
                matches.len() - 1
            } else {
                current_match - 1
            },
        ),
        _ => m,
    }
}

/// The state without a search.
pub open spec fn search_cleared(m: StateModel) -> StateModel {
    StateModel { search: SearchModel::Normal, input: seq![], ..m }
}

/// The distance of two line indices.
pub open spec fn distance(a: int, b: int) -> int {
    if a >= b {
        a - b
    } else {
        b - a
    }
}

/// The first of the matches that are nearest to a line.
pub open spec fn is_nearest(matches: Seq<SearchMatch>, line: int, i: int) -> bool {
    &&& 0 <= i < matches.len()
    &&& forall|j: int|
        0 <= j < matches.len() ==> distance(matches[i].line_idx as int, line) <= distance(
            (#[trigger] matches[j]).line_idx as int,
            line,
        )
    &&& forall|j: int|
        0 <= j < i ==> distance(matches[i].line_idx as int, line) < distance(
            (#[trigger] matches[j]).line_idx as int,
            line,
        )
}

/// Whether `n` is the state after the matches of the current search were found anew: the current
/// match is the one nearest to the target line, if there is one, else the one with the same
/// number, as far as possible. Without matches the search ends.
pub open spec fn results_rebuilt(
    m: StateModel,
    found: Seq<SearchMatch>,
    target: Option<usize>,
    n: StateModel,
) -> bool {
    match m.search {
        SearchModel::Active { query, matches, current_match } => if found.len() == 0 {
            n == (StateModel { search: SearchModel::Normal, ..m })
        } else {
            exists|i: int|
                {
                    &&& n == (StateModel {
                        search: #[trigger] active_with(query, found, i),
                        ..m
                    })
                    &&& match target {
                        Some(line) => is_nearest(found, line as int, i),
                        None => i == state::smaller(current_match, found.len() - 1),
                    }
                }
        },
        _ => n == m,
    }
}

pub open spec fn active_with(query: Seq<char>, matches: Seq<SearchMatch>, i: int) -> SearchModel {
    SearchModel::Active { query, matches, current_match: i }
}

/// The query of the current search.
pub open spec fn active_query(m: StateModel) -> Option<Seq<char>> {
    match m.search {
        SearchModel::Active { query, matches, current_match } => Some(query),
        _ => None,
    }
}

/// Whether the content can be searched for the query that is being typed.
pub open spec fn can_search(m: StateModel, content: Seq<ParsedLine>) -> bool {
    search::search_matches(m.input, search::plain_texts(content)) is Some
}

fn abs_diff(a: usize, b: usize) -> (r: usize)
    ensures
        r == distance(a as int, b as int),
{
    if a >= b {
        a - b
    } else {
        b - a
    }
}

/// The first of the matches that are nearest to a line.
fn nearest_match(matches: &Vec<SearchMatch>, line: usize) -> (r: usize)
    requires
        matches@.len() > 0,
    ensures
        is_nearest(matches@, line as int, r as int),
{
    let mut best: usize = 0;
    let mut i: usize = 1;
    while i < matches.len()
        invariant
            1 <= i <= matches@.len(),
            best < i,
            forall|j: int|
                0 <= j < i ==> distance(matches@[best as int].line_idx as int, line as int)
                    <= distance((#[trigger] matches@[j]).line_idx as int, line as int),
            forall|j: int|
                0 <= j < best ==> distance(matches@[best as int].line_idx as int, line as int)
                    < distance((#[trigger] matches@[j]).line_idx as int, line as int),
        decreases matches.len() - i,
    {
        if abs_diff(matches[i].line_idx, line) < abs_diff(matches[best].line_idx, line) {
            best = i;
        }
        i += 1;
    }
    best
}

impl PagerState {
    /// Scrolls so that a line is in the middle of the viewport, as far as possible.
    fn center_on(&mut self, line: usize)
        requires
            old(self).wf(),
        ensures
            final(self)@ == centered_on(old(self)@, line as int),
            final(self).wf(),
    {
        let half: usize = self.viewport_height / 2;
        self.scroll_offset = if line >= half {
            line - half
        } else {
            0
        };
        self.clamp_scroll();
    }

    pub fn start_search(&mut self)
        requires
            old(self).wf(),
        ensures
            final(self)@ == search_started(old(self)@),
            final(self).wf(),
    {
        self.search_mode = SearchMode::EnteringQuery;
        self.search_input.clear();
        assert(self@ =~= search_started(old(self)@));
    }

    /// Takes over the matches of the typed query.
    pub fn show_matches(&mut self, matches: Vec<SearchMatch>)
        requires
            old(self).wf(),
        ensures
            final(self)@ == search_performed(old(self)@, matches@),
            final(self).wf(),
    {
        if self.search_input.as_str().is_empty() || matches.len() == 0 {
            self.search_mode = SearchMode::Normal;
        } else {
            self.center_on(matches[0].line_idx);
            let query = self.search_input.clone();
            self.search_mode = SearchMode::Active { query, matches, current_match: 0 };
        }
    }

    /// Searches for the typed query.
    pub fn perform_search(&mut self, content: &[ParsedLine])
        requires
            old(self).wf(),
            can_search(old(self)@, content@),
        ensures
            final(self)@ == search_performed(
                old(self)@,
                search::search_matches(old(self)@.input, search::plain_texts(content@))->0,
            ),
            final(self).wf(),
    {
        let matches = find_search_matches(self.search_input.as_str(), content);
        self.show_matches(matches);
    }

    /// Takes over new matches of the current search.
    pub fn replace_matches(&mut self, found: Vec<SearchMatch>, target_line: Option<usize>)
        requires
            old(self).wf(),
        ensures
            results_rebuilt(old(self)@, found@, target_line, final(self)@),
            final(self).wf(),
    {
        let (query, current) = match &self.search_mode {
            SearchMode::Active { query, matches, current_match } => (query.clone(), *current_match),
            _ => return,
        };
        if found.len() == 0 {
            self.search_mode = SearchMode::Normal;
            return;
        }
        let index: usize = match target_line {
            Some(line) => nearest_match(&found, line),
            None => if current <= found.len() - 1 {
                current
            } else {
                found.len() - 1
            },
        };
        let ghost all = found@;
        let ghost q = query@;
        self.search_mode = SearchMode::Active { query, matches: found, current_match: index };
        assert(self@ == (StateModel { search: active_with(q, all, index as int), ..old(self)@ }));
    }

    /// Finds the matches of the current search anew.
    pub fn rebuild_search_results(&mut self, content: &[ParsedLine], target_line: Option<usize>)
        requires
            old(self).wf(),
            active_query(old(self)@) is Some ==> search::search_matches(
                active_query(old(self)@)->0,
                search::plain_texts(content@),
            ) is Some,
        ensures
            final(self).wf(),
            match active_query(old(self)@) {
                Some(query) => results_rebuilt(
                    old(self)@,
                    search::search_matches(query, search::plain_texts(content@))->0,
                    target_line,
                    final(self)@,
                ),
                None => final(self)@ == old(self)@,
            },
    {
        let found = match &self.search_mode {
            SearchMode::Active { query, matches, current_match } => find_search_matches(
                query.as_str(),
                content,
            ),
            _ => return,
        };
        self.replace_matches(found, target_line);
    }

    /// `rebuild_search_results` where the content can be searched. Returns whether it could.
    pub fn try_rebuild_search_results(&mut self, content: &[ParsedLine], target_line: Option<usize>) -> (r:
        bool)
        requires
            old(self).wf(),
        ensures
            final(self).wf(),
            match active_query(old(self)@) {
                Some(query) => match search::search_matches(query, search::plain_texts(content@)) {
                    Some(found) => r && results_rebuilt(
                        old(self)@,
                        found,
                        target_line,
                        final(self)@,
                    ),
                    None => !r && final(self)@ == old(self)@,
                },
                None => r && final(self)@ == old(self)@,
            },
    {
        let searchable = match &self.search_mode {
            SearchMode::Active { query, matches, current_match } => try_find_search_matches(
                query.as_str(),
                content,
            ).is_some(),
            _ => true,
        };
        if searchable {
            self.rebuild_search_results(content, target_line);
        }
        searchable
    }

    fn select_match(&mut self, index: usize, line: usize)
        requires
            old(self).wf(),
            old(self)@.search matches SearchModel::Active { matches, .. } && index < matches.len()
                && matches[index as int].line_idx == line,
        ensures
            final(self)@ == match_selected(old(self)@, index as int),
            final(self).wf(),
    {
        self.center_on(line);
        match &mut self.search_mode {
            SearchMode::Active { query, matches, current_match } => {
                *current_match = index;
            },
            _ => {},
        }
    }

    pub fn next_match(&mut self)
        requires
            old(self).wf(),
        ensures
            final(self)@ == next_match_selected(old(self)@),
            final(self).wf(),
    {
        let (index, line): (usize, usize) = match &self.search_mode {
            SearchMode::Active { query, matches, current_match } => {
                let n: usize = matches.len();
                let i: usize = if *current_match < n - 1 {
                    *current_match + 1
                } else {
                    0
                };
                (i, matches[i].line_idx)
            },
            _ => return,
        };
        self.select_match(index, line);
    }

    pub fn prev_match(&mut self)
        requires
            old(self).wf(),
        ensures
            final(self)@ == prev_match_selected(old(self)@),
            final(self).wf(),
    {
        let (index, line): (usize, usize) = match &self.search_mode {
            SearchMode::Active { query, matches, current_match } => {
                let i: usize = if *current_match == 0 {
                    matches.len() - 1
                } else {
                    *current_match - 1
                };
                (i, matches[i].line_idx)
            },
            _ => return,
        };
        self.select_match(index, line);
    }

    pub fn clear_search(&mut self)
        requires
            old(self).wf(),
        ensures
            final(self)@ == search_cleared(old(self)@),
            final(self).wf(),
    {
        self.search_mode = SearchMode::Normal;
        self.search_input.clear();
        assert(self@ =~= search_cleared(old(self)@));
    }
}

// ---------------------------------------------------------------------------
// Links
// ---------------------------------------------------------------------------

/// Where the viewport ends.
pub open spec fn viewport_end(m: StateModel) -> int {
    m.scroll + m.height
}

/// Whether a link is visible.
pub open spec fn in_view(m: StateModel, l: LinkModel) -> bool {
    m.height > 0 && links::link_visible(l, m.scroll, viewport_end(m))
}

/// The first visible link at or after the `i`-th.
pub open spec fn first_in_view(m: StateModel, i: int) -> Option<int>
    decreases m.links.len() - i,
{
    if i < 0 || i >= m.links.len() {
        None
    } else if in_view(m, m.links[i]) {
        Some(i)
    } else {
        first_in_view(m, i + 1)
    }
}

/// The last visible link before the `i`-th.
pub open spec fn last_in_view(m: StateModel, i: int) -> Option<int>
    decreases i,
{
    if i <= 0 || i > m.links.len() {
        None
    } else if in_view(m, m.links[i - 1]) {
        Some(i - 1)
    } else {
        last_in_view(m, i - 1)
    }
}

/// Whether the focused link is visible.
pub open spec fn focus_in_view(m: StateModel) -> bool {
    match m.focused {
        Some(i) => in_view(m, m.links[i as int]),
        None => false,
    }
}

/// The state scrolled as little as needed to show the start of a link.
pub open spec fn link_shown(m: StateModel, i: int) -> StateModel {
    let line = m.links[i].spans[0].line_idx as int;
    if line < m.scroll {
        state::scrolled_to(m, line)
    } else if m.height > 0 && line >= m.scroll + m.height {
        state::scrolled_to(m, line - (m.height - 1))
    } else {
        m
    }
}

/// The state with the focus on a link, which is shown.
pub open spec fn link_focused(m: StateModel, i: int) -> StateModel {
    link_shown(StateModel { focused: Some(i as usize), ..m }, i)
}

/// The link that gets the focus next: the first visible one unless the focus is visible already,
/// else the one after the focused one, from the last to the first.
pub open spec fn next_link(m: StateModel) -> Option<int> {
    if !focus_in_view(m) && first_in_view(m, 0) is Some {
        first_in_view(m, 0)
    } else if m.links.len() == 0 {
        None
    } else {
        match m.focused {
            Some(i) => if i + 1 < m.links.len() {
                Some(i + 1)
            } else {
                Some(0)
            },
            None => Some(0),
        }
    }
}

/// The link that gets the focus when going backwards: the last visible one unless the focus is
/// visible already, else the one before the focused one, from the first to the last.
pub open spec fn prev_link(m: StateModel) -> Option<int> {
    if !focus_in_view(m) && last_in_view(m, m.links.len() as int) is Some {
        last_in_view(m, m.links.len() as int)
    } else if m.links.len() == 0 {
        None
    } else {
        match m.focused {
            Some(i) => if i == 0 {
                Some(m.links.len() - 1)
            } else {
                Some(i - 1)
            },
            None => Some(m.links.len() - 1),
        }
    }
}

/// The state with the focus on `target`, if there is one.
pub open spec fn focus_moved(m: StateModel, target: Option<int>) -> StateModel {
    match target {
        Some(i) => link_focused(m, i),
        None => m,
    }
}

/// Whether moving the focus to `target` changes it.
pub open spec fn focus_changes(m: StateModel, target: Option<int>) -> bool {
    match target {
        Some(i) => m.focused != Some(i as usize),
        None => false,
    }
}

/// The first link at or after the `i`-th that covers a place.
pub open spec fn link_at(links: Seq<LinkModel>, line: int, column: int, i: int) -> Option<usize>
    decreases links.len() - i,
{
    if i < 0 || i >= links.len() {
        None
    } else if links::link_covers(links[i], line, column) {
        Some(i as usize)
    } else {
        link_at(links, line, column, i + 1)
    }
}

/// The state after the pointer clicked at a place: the link there gets the focus and is shown.
pub open spec fn link_clicked(m: StateModel, line: int, column: int) -> StateModel {
    match link_at(m.links, line, column, 0) {
        Some(i) => if m.focused == Some(i) {
            m
        } else {
            link_focused(m, i as int)
        },
        None => m,
    }
}

/// The state after the pointer moved to a place: the link there is hovered.
pub open spec fn link_hovered(m: StateModel, line: int, column: int) -> StateModel {
    StateModel { hovered: link_at(m.links, line, column, 0), ..m }
}

/// The state without a hovered link.
pub open spec fn hover_cleared(m: StateModel) -> StateModel {
    StateModel { hovered: None, ..m }
}

/// Whether two links are the same link: by their identifiers where both have one, else by URL and
/// place.
pub open spec fn same_link(a: LinkModel, b: LinkModel) -> bool {
    match (a.id, b.id) {
        (Some(x), Some(y)) => x == y,
        _ => a.url == b.url && a.spans[0].line_idx == b.spans[0].line_idx && a.spans[0].start_char
            == b.spans[0].start_char,
    }
}

/// The first link at or after the `i`-th that is the same link as `l`.
pub open spec fn same_link_in(links: Seq<LinkModel>, l: LinkModel, i: int) -> Option<usize>
    decreases links.len() - i,
{
    if i < 0 || i >= links.len() {
        None
    } else if same_link(links[i], l) {
        Some(i as usize)
    } else {
        same_link_in(links, l, i + 1)
    }
}

/// Where the link with index `idx` is found again among other links.
pub open spec fn found_again(
    old_links: Seq<LinkModel>,
    idx: Option<usize>,
    new_links: Seq<LinkModel>,
) -> Option<usize> {
    match idx {
        Some(i) => same_link_in(new_links, old_links[i as int], 0),
        None => None,
    }
}

/// The state with other links; focus and hover stay on their links where those are found again.
pub open spec fn links_rebuilt(m: StateModel, new_links: Seq<LinkModel>) -> StateModel {
    StateModel {
        links: new_links,
        focused: found_again(m.links, m.focused, new_links),
        hovered: found_again(m.links, m.hovered, new_links),
        ..m
    }
}

proof fn lemma_same_link_index(links: Seq<LinkModel>, l: LinkModel, i: int)
    requires
        0 <= i,
        links.len() <= usize::MAX,
    ensures
        state::index_ok(same_link_in(links, l, i), links.len() as int),
    decreases links.len() - i,
{
    if i < links.len() {
        lemma_same_link_index(links, l, i + 1);
    }
}

pub proof fn lemma_first_in_view(m: StateModel, i: int)
    ensures
        0 <= i ==> match first_in_view(m, i) {
            Some(k) => i <= k < m.links.len() && in_view(m, m.links[k]),
            None => true,
        },
    decreases m.links.len() - i,
{
    if 0 <= i < m.links.len() {
        lemma_first_in_view(m, i + 1);
    }
}

/// Whether two links are the same link.
fn is_same_link(a: &LinkInfo, b: &LinkInfo) -> (r: bool)
    requires
        a@.spans.len() > 0,
        b@.spans.len() > 0,
    ensures
        r == same_link(a@, b@),
{
    match (&a.id, &b.id) {
        (Some(x), Some(y)) => same_text(x, y),
        _ => same_text(&a.url, &b.url) && a.line_idx() == b.line_idx() && a.start_char()
            == b.start_char(),
    }
}

/// The first link that is the same link as `l`.
fn find_same_link(all: &Vec<LinkInfo>, l: &LinkInfo) -> (r: Option<usize>)
    requires
        links::links_wf(links::link_models(all@)),
        l@.spans.len() > 0,
    ensures
        r == same_link_in(links::link_models(all@), l@, 0),
{
    let ghost models = links::link_models(all@);
    let mut i: usize = 0;
    while i < all.len()
        invariant
            i <= all@.len(),
            models == links::link_models(all@),
            links::links_wf(models),
            l@.spans.len() > 0,
            same_link_in(models, l@, 0) == same_link_in(models, l@, i as int),
        decreases all.len() - i,
    {
        assert(models[i as int] == all@[i as int]@);
        assert(models[i as int].wf());
        if is_same_link(&all[i], l) {
            return Some(i);
        }
        i += 1;
    }
    None
}

impl PagerState {
    /// Collects the links of the content anew; focus and hover stay on their links.
    pub fn rebuild_links(&mut self, content: &[ParsedLine])
        requires
            old(self).wf(),
            links::content_fits(ansi::line_models(content@)),
        ensures
            final(self)@ == links_rebuilt(
                old(self)@,
                links::links_of(ansi::line_models(content@)),
            ),
            final(self).wf(),
    {
        let new_links = collect_links(content);
        let ghost models = links::link_models(new_links@);
        let _n: usize = new_links.len();
        assert(models.len() == _n);
        let focused = match self.focused_link {
            Some(i) => {
                assert(self@.links[i as int] == self.links@[i as int]@);
                assert(self@.links[i as int].wf());
                proof {
                    lemma_same_link_index(models, self@.links[i as int], 0);
                }
                find_same_link(&new_links, &self.links[i])
            },
            None => None,
        };
        let hovered = match self.hovered_link {
            Some(i) => {
                assert(self@.links[i as int] == self.links@[i as int]@);
                assert(self@.links[i as int].wf());
                proof {
                    lemma_same_link_index(models, self@.links[i as int], 0);
                }
                find_same_link(&new_links, &self.links[i])
            },
            None => None,
        };
        self.focused_link = focused;
        self.hovered_link = hovered;
        self.links = new_links;
    }

    /// Whether a link is visible.
    fn link_in_view(&self, i: usize) -> (r: bool)
        requires
            self.wf(),
            i < self@.links.len(),
        ensures
            r == in_view(self@, self@.links[i as int]),
    {
        assert(self@.links[i as int] == self.links@[i as int]@);
        self.viewport_height > 0 && self.links[i].visible_in_range(
            self.scroll_offset,
            self.scroll_offset + self.viewport_height,
        )
    }

    pub fn focused_link_visible(&self) -> (r: bool)
        requires
            self.wf(),
        ensures
            r == focus_in_view(self@),
    {
        match self.focused_link {
            Some(i) => self.link_in_view(i),
            None => false,
        }
    }

    pub fn first_visible_link(&self) -> (r: Option<usize>)
        requires
            self.wf(),
        ensures
            match r {
                Some(i) => first_in_view(self@, 0) == Some(i as int) && i < self@.links.len(),
                None => first_in_view(self@, 0) is None,
            },
    {
        let mut i: usize = 0;
        while i < self.links.len()
            invariant
                self.wf(),
                i <= self.links@.len(),
                first_in_view(self@, 0) == first_in_view(self@, i as int),
            decreases self.links.len() - i,
        {
            if self.link_in_view(i) {
                return Some(i);
            }
            i += 1;
        }
        None
    }

    pub fn last_visible_link(&self) -> (r: Option<usize>)
        requires
            self.wf(),
        ensures
            match r {
                Some(i) => last_in_view(self@, self@.links.len() as int) == Some(i as int) && i
                    < self@.links.len(),
                None => last_in_view(self@, self@.links.len() as int) is None,
            },
    {
        let mut i: usize = self.links.len();
        while i > 0
            invariant
                self.wf(),
                i <= self.links@.len(),
                last_in_view(self@, self@.links.len() as int) == last_in_view(self@, i as int),
            decreases i,
        {
            if self.link_in_view(i - 1) {
                return Some(i - 1);
            }
            i -= 1;
        }
        None
    }

    /// Scrolls as little as needed to show the start of a link.
    pub fn ensure_link_visible(&mut self, index: usize)
        requires
            old(self).wf(),
            index < old(self)@.links.len(),
        ensures
            final(self)@ == link_shown(old(self)@, index as int),
            final(self).wf(),
    {
        assert(self@.links[index as int] == self.links@[index as int]@);
        assert(self@.links[index as int].wf());
        let line = self.links[index].line_idx();
        if line < self.scroll_offset {
            self.scroll_offset = line;
        } else if self.viewport_height > 0 && line >= self.scroll_offset + self.viewport_height {
            self.scroll_offset = line - (self.viewport_height - 1);
        }
        self.clamp_scroll();
    }

    /// Gives a link the focus and shows it. Returns whether the focus changed.
    fn focus_link(&mut self, index: usize) -> (r: bool)
        requires
            old(self).wf(),
            index < old(self)@.links.len(),
        ensures
            final(self)@ == link_focused(old(self)@, index as int),
            final(self).wf(),
            r == focus_changes(old(self)@, Some(index as int)),
    {
        let changed = match self.focused_link {
            Some(i) => i != index,
            None => true,
        };
        self.focused_link = Some(index);
        self.ensure_link_visible(index);
        changed
    }

    /// Moves the focus to the next link. Returns whether it changed.
    pub fn focus_next_link(&mut self) -> (r: bool)
        requires
            old(self).wf(),
        ensures
            final(self)@ == focus_moved(old(self)@, next_link(old(self)@)),
            final(self).wf(),
            r == focus_changes(old(self)@, next_link(old(self)@)),
    {
        if !self.focused_link_visible() {
            if let Some(i) = self.first_visible_link() {
                return self.focus_link(i);
            }
        }
        if self.links.len() == 0 {
            return false;
        }
        let next: usize = match self.focused_link {
            Some(i) => if i + 1 < self.links.len() {
                i + 1
            } else {
                0
            },
            None => 0,
        };
        self.focus_link(next)
    }

    /// Moves the focus to the previous link. Returns whether it changed.
    pub fn focus_prev_link(&mut self) -> (r: bool)
        requires
            old(self).wf(),
        ensures
            final(self)@ == focus_moved(old(self)@, prev_link(old(self)@)),
            final(self).wf(),
            r == focus_changes(old(self)@, prev_link(old(self)@)),
    {
        if !self.focused_link_visible() {
            if let Some(i) = self.last_visible_link() {
                return self.focus_link(i);
            }
        }
        if self.links.len() == 0 {
            return false;
        }
        let prev: usize = match self.focused_link {
            Some(i) => if i == 0 {
                self.links.len() - 1
            } else {
                i - 1
            },
            None => self.links.len() - 1,
        };
        self.focus_link(prev)
    }

    /// The first link that covers a place.
    fn find_link_at(&self, line_idx: usize, column: usize) -> (r: Option<usize>)
        ensures
            r == link_at(self@.links, line_idx as int, column as int, 0),
            state::index_ok(r, self@.links.len() as int),
    {
        let ghost models = self@.links;
        let mut i: usize = 0;
        while i < self.links.len()
            invariant
                i <= self.links@.len(),
                models == self@.links,
                link_at(models, line_idx as int, column as int, 0) == link_at(
                    models,
                    line_idx as int,
                    column as int,
                    i as int,
                ),
            decreases self.links.len() - i,
        {
            assert(models[i as int] == self.links@[i as int]@);
            if self.links[i].contains_column(line_idx, column) {
                return Some(i);
            }
            i += 1;
        }
        None
    }

    /// Gives the link at a place the focus. Returns its index.
    pub fn focus_link_at(&mut self, line_idx: usize, column: usize) -> (r: Option<usize>)
        requires
            old(self).wf(),
        ensures
            final(self)@ == link_clicked(old(self)@, line_idx as int, column as int),
            final(self).wf(),
            r == link_at(old(self)@.links, line_idx as int, column as int, 0),
            state::index_ok(r, old(self)@.links.len() as int),
    {
        let found = self.find_link_at(line_idx, column);
        if let Some(i) = found {
            let changed = match self.focused_link {
                Some(f) => f != i,
                None => true,
            };
            if changed {
                let _c = self.focus_link(i);
            }
        }
        found
    }

    pub fn focused_link(&self) -> (r: Option<&LinkInfo>)
        requires
            self.wf(),
        ensures
            match (r, self@.focused) {
                (Some(l), Some(i)) => l@ == self@.links[i as int],
                (None, None) => true,
                _ => false,
            },
    {
        match self.focused_link {
            Some(i) => {
                assert(self@.links[i as int] == self.links@[i as int]@);
                Some(&self.links[i])
            },
            None => None,
        }
    }

    /// The URL of the focused link.
    pub fn current_link_target(&self) -> (r: Option<String>)
        requires
            self.wf(),
        ensures
            ansi::opt_text(r) == focused_url(self@),
    {
        match self.focused_link() {
            Some(l) => Some(l.url.clone()),
            None => None,
        }
    }

    pub fn hovered_link(&self) -> (r: Option<&LinkInfo>)
        requires
            self.wf(),
        ensures
            match (r, self@.hovered) {
                (Some(l), Some(i)) => l@ == self@.links[i as int],
                (None, None) => true,
                _ => false,
            },
    {
        match self.hovered_link {
            Some(i) => {
                assert(self@.links[i as int] == self.links@[i as int]@);
                Some(&self.links[i])
            },
            None => None,
        }
    }

    /// The URL of the hovered link.
    pub fn hovered_link_target(&self) -> (r: Option<String>)
        requires
            self.wf(),
        ensures
            ansi::opt_text(r) == hovered_url(self@),
    {
        match self.hovered_link() {
            Some(l) => Some(l.url.clone()),
            None => None,
        }
    }

    /// Hovers the link at a place. Returns whether the hover changed.
    pub fn hover_link_at(&mut self, line_idx: usize, column: usize) -> (r: bool)
        requires
            old(self).wf(),
        ensures
            final(self)@ == link_hovered(old(self)@, line_idx as int, column as int),
            final(self).wf(),
            r == (final(self)@.hovered != old(self)@.hovered),
    {
        let found = self.find_link_at(line_idx, column);
        let changed = match (found, self.hovered_link) {
            (Some(a), Some(b)) => a != b,
            (None, None) => false,
            _ => true,
        };
        self.hovered_link = found;
        changed
    }

    /// Ends hovering. Returns whether a link was hovered.
    pub fn clear_hover(&mut self) -> (r: bool)
        requires
            old(self).wf(),
        ensures
            final(self)@ == hover_cleared(old(self)@),
            final(self).wf(),
            r == (old(self)@.hovered is Some),
    {
        let was = self.hovered_link.is_some();
        self.hovered_link = None;
        was
    }
}

/// The URL of the focused link.
pub open spec fn focused_url(m: StateModel) -> Option<Seq<char>> {
    match m.focused {
        Some(i) => Some(m.links[i as int].url),
        None => None,
    }
}

/// The URL of the hovered link.
pub open spec fn hovered_url(m: StateModel) -> Option<Seq<char>> {
    match m.hovered {
        Some(i) => Some(m.links[i as int].url),
        None => None,
    }
}

} // verus!
