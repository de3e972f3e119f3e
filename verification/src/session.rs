//! A session of the pager: what it does next, and what events make of it.
use vstd::prelude::*;
use vstd::string::*;
use crate::ansi;
use crate::ansi::ParsedLine;
use crate::image::InlineImage;
use crate::input;
use crate::input::{handle_mouse_event, try_handle_key_event, KeyEvent, MouseEvent};
use crate::links;
use crate::links::content_fits_usize;
use crate::navigation;
use crate::render;
use crate::render::try_render_pager;
use crate::screen;
use crate::screen::{DrawOp, OpModel};
use crate::state;
use crate::state::{limits_hold, PagerState, StateModel};

verus! {

// ---------------------------------------------------------------------------
// Types
// ---------------------------------------------------------------------------

/// Something that happened at the terminal.
#[derive(Clone, Copy, Debug, PartialEq, Eq, Structural)]
pub enum Event {
    Key(KeyEvent),
    Mouse(MouseEvent),
    /// The terminal has a new height; the line `center` is to be in the middle.
    Resize { height: u16, center: usize },
    Other,
}

/// What the session wants to be done next.
#[derive(Debug, PartialEq, Eq)]
pub enum Action {
    /// Draw the screen.
    Draw,
    /// Open a URL.
    Open(String),
    /// Wait for an event and handle it.
    Read,
    /// End.
    Quit,
}

pub enum ActionModel {
    Draw,
    Open(Seq<char>),
    Read,
    Quit,
}

impl View for Action {
    type V = ActionModel;

    open spec fn view(&self) -> ActionModel {
        match self {
            Action::Draw => ActionModel::Draw,
            Action::Open(url) => ActionModel::Open(url@),
            Action::Read => ActionModel::Read,
            Action::Quit => ActionModel::Quit,
        }
    }
}

pub struct Session {
    pub content: Vec<ParsedLine>,
    pub images: Vec<InlineImage>,
    pub state: PagerState,
    pub needs_redraw: bool,
    pub pending_link: Option<String>,
    pub running: bool,
}

#[verifier::ext_equal]
pub struct SessionModel {
    pub content: Seq<ParsedLine>,
    pub images: Seq<InlineImage>,
    pub state: StateModel,
    pub redraw: bool,
    pub pending: Option<Seq<char>>,
    pub running: bool,
}

impl View for Session {
    type V = SessionModel;

    open spec fn view(&self) -> SessionModel {
        SessionModel {
            content: self.content@,
            images: self.images@,
            state: self.state@,
            redraw: self.needs_redraw,
            pending: ansi::opt_text(self.pending_link),
            running: self.running,
        }
    }
}

/// The segments of every line cover it without gaps.
pub open spec fn all_partitioned(content: Seq<ParsedLine>) -> bool {
    forall|i: int| 0 <= i < content.len() ==> (#[trigger] content[i])@.partitioned()
}

/// What always holds of a session.
pub open spec fn session_ok(m: SessionModel) -> bool {
    &&& state::state_ok(m.state)
    &&& m.state.total == m.content.len()
    &&& all_partitioned(m.content)
}

// ---------------------------------------------------------------------------
// What a session does
// ---------------------------------------------------------------------------

/// Whether the numbers computed for a content and a terminal height are machine numbers.
pub open spec fn startable(content: Seq<ParsedLine>, terminal_height: int) -> bool {
    &&& state::limits(content.len() as int, state::minus(terminal_height, 1))
    &&& links::content_fits(ansi::line_models(content))
}

/// A new session: at the start of the text, with its links, and with the screen to be drawn.
pub open spec fn started(
    content: Seq<ParsedLine>,
    images: Seq<InlineImage>,
    filename: Option<Seq<char>>,
    cell_h: int,
    terminal_height: int,
) -> SessionModel {
    SessionModel {
        content,
        images,
        state: navigation::links_rebuilt(
            StateModel {
                filename,
                cell_h,
                ..state::initial(content.len() as int, state::minus(terminal_height, 1))
            },
            links::links_of(ansi::line_models(content)),
        ),
        redraw: true,
        pending: None,
        running: true,
    }
}

/// What is done next: what is to be drawn is drawn first, and links are opened before the next
/// event is read.
pub open spec fn next(m: SessionModel) -> (ActionModel, SessionModel) {
    if !m.running {
        (ActionModel::Quit, m)
    } else if m.redraw {
        (ActionModel::Draw, SessionModel { redraw: false, ..m })
    } else {
        match m.pending {
            Some(url) => (ActionModel::Open(url), SessionModel { pending: None, ..m }),
            None => (ActionModel::Read, m),
        }
    }
}

/// A session after a step of its state.
pub open spec fn stepped(m: SessionModel, step: input::Step) -> SessionModel {
    SessionModel {
        state: step.state,
        redraw: m.redraw || step.redraw,
        pending: input::opened(step, m.pending),
        running: m.running && step.running,
        ..m
    }
}

/// What an event does to a session.
pub open spec fn handled(m: SessionModel, e: Event) -> SessionModel {
    match e {
        Event::Key(key) => stepped(
            m,
            input::key_step(m.state, key, input::typed_matches(m.state, m.content)),
        ),
        Event::Mouse(mouse) => stepped(m, input::mouse_step(m.state, mouse)),
        Event::Resize { height, center } => SessionModel {
            state: state::resized(m.state, state::minus(height as int, 1), center as int),
            redraw: true,
            ..m
        },
        Event::Other => m,
    }
}

/// Whether an event can be handled: a search that it starts can be carried out, and the terminal
/// is not too high for the machine's numbers.
pub open spec fn can_handle(m: SessionModel, e: Event) -> bool {
    match e {
        Event::Key(key) => input::starts_search(m.state, key) ==> navigation::can_search(
            m.state,
            m.content,
        ),
        Event::Resize { height, .. } => state::limits(
            m.state.total,
            state::minus(height as int, 1),
        ),
        _ => true,
    }
}

/// The rows for text on a terminal of the given height.
fn text_rows(terminal_height: u16) -> (r: usize)
    ensures
        r == state::minus(terminal_height as int, 1),
{
    if terminal_height >= 1 {
        (terminal_height - 1) as usize
    } else {
        0
    }
}

impl Session {
    pub open spec fn wf(self) -> bool {
        session_ok(self@)
    }

    /// Starts a session. `None` where a number computed from the content would be too large for
    /// the machine.
    pub fn start(
        content: Vec<ParsedLine>,
        images: Vec<InlineImage>,
        filename: Option<String>,
        cell_h: usize,
        terminal_height: u16,
    ) -> (r: Option<Self>)
        requires
            all_partitioned(content@),
        ensures
            match r {
                Some(s) => {
                    &&& startable(content@, terminal_height as int)
                    &&& s.wf()
                    &&& s@ == started(
                        content@,
                        images@,
                        ansi::opt_text(filename),
                        cell_h as int,
                        terminal_height as int,
                    )
                },
                None => !startable(content@, terminal_height as int),
            },
    {
        let rows: usize = text_rows(terminal_height);
        if !limits_hold(content.len(), rows) || !content_fits_usize(content.as_slice()) {
            return None;
        }
        let mut state = PagerState::new(content.len(), rows);
        state.filename = filename;
        state.cell_h = cell_h;
        assert(state@ =~= StateModel {
            filename: ansi::opt_text(filename),
            cell_h: cell_h as int,
            ..state::initial(content@.len() as int, rows as int)
        });
        state.rebuild_links(content.as_slice());
        Some(
            Session {
                content,
                images,
                state,
                needs_redraw: true,
                pending_link: None,
                running: true,
            },
        )
    }

    /// What is to be done next.
    pub fn next_action(&mut self) -> (r: Action)
        requires
            old(self).wf(),
        ensures
            (r@, final(self)@) == next(old(self)@),
            final(self).wf(),
    {
        if !self.running {
            return Action::Quit;
        }
        if self.needs_redraw {
            self.needs_redraw = false;
            return Action::Draw;
        }
        match self.pending_link.take() {
            Some(url) => Action::Open(url),
            None => Action::Read,
        }
    }

    /// Draws the screen on a terminal of the given size. `None` where a highlight starts or ends
    /// inside a character, or a number is too large for the machine.
    pub fn try_draw(&mut self, terminal_width: u16, terminal_height: u16) -> (r: Option<
        Vec<DrawOp>,
    >)
        requires
            old(self).wf(),
        ensures
            final(self).wf(),
            ({
                let (width, height) = (terminal_width as int, terminal_height as int);
                let before = old(self)@;
                let total = before.content.len() as int;
                let fitted = render::fitted(before.state, total, width, height);
                let lines = ansi::line_models(before.content);
                if !state::limits(total, state::minus(height, 1)) {
                    r is None && final(self)@ == before
                } else if height == 0 {
                    &&& final(self)@ == before
                    &&& r matches Some(ops) && screen::op_models(ops@) == Seq::<OpModel>::empty()
                } else {
                    &&& final(self)@ == SessionModel { state: fitted, ..before }
                    &&& match r {
                        Some(ops) => {
                            &&& render::drawable(fitted, lines, before.images, width)
                            &&& screen::op_models(ops@) == render::screen_ops(
                                fitted,
                                lines,
                                before.images,
                                width,
                                before.state.last_terminal_height,
                            )
                        },
                        None => !render::drawable(fitted, lines, before.images, width),
                    }
                }
            }),
    {
        if !limits_hold(self.content.len(), text_rows(terminal_height)) {
            return None;
        }
        try_render_pager(
            self.content.as_slice(),
            self.images.as_slice(),
            &mut self.state,
            terminal_width,
            terminal_height,
        )
    }

    /// Handles an event. Returns whether that was possible; where not, nothing is changed.
    pub fn try_handle_event(&mut self, event: Event) -> (r: bool)
        requires
            old(self).wf(),
        ensures
            r == can_handle(old(self)@, event),
            final(self)@ == if r {
                handled(old(self)@, event)
            } else {
                old(self)@
            },
            final(self).wf(),
    {
        match event {
            Event::Key(key) => {
                match try_handle_key_event(
                    key,
                    &mut self.state,
                    self.content.as_slice(),
                    &mut self.needs_redraw,
                    &mut self.pending_link,
                ) {
                    Some(running) => {
                        self.running = self.running && running;
                        true
                    },
                    None => false,
                }
            },
            Event::Mouse(mouse) => {
                handle_mouse_event(
                    mouse,
                    &mut self.state,
                    &mut self.needs_redraw,
                    &mut self.pending_link,
                );
                true
            },
            Event::Resize { height, center } => {
                let rows: usize = text_rows(height);
                if !limits_hold(self.state.total_lines, rows) {
                    return false;
                }
                self.state.resize(rows, center);
                self.needs_redraw = true;
                true
            },
            Event::Other => true,
        }
    }
}

// ---------------------------------------------------------------------------
// Laws
// ---------------------------------------------------------------------------

/// A session that has ended stays ended.
pub proof fn law_ended_stays(m: SessionModel, e: Event)
    requires
        !m.running,
    ensures
        next(m) == (ActionModel::Quit, m),
        !handled(m, e).running,
{
}

/// Before an event is read, everything is drawn and no link waits to be opened.
pub proof fn law_read_last(m: SessionModel)
    requires
        next(m).0 is Read,
    ensures
        m.running && !m.redraw && m.pending is None,
        next(m).1 == m,
{
}

/// Drawing and opening are asked for once: at most two actions are done before the next event is
/// read.
pub proof fn law_settles(m: SessionModel)
    requires
        m.running,
    ensures
        next(next(next(m).1).1).0 is Read,
{
}

/// A session starts at the first line, with the links of its text, nothing focused and nothing
/// searched; all rows but the last are for text. The screen is drawn before anything else.
pub proof fn law_started(
    content: Seq<ParsedLine>,
    images: Seq<InlineImage>,
    filename: Option<Seq<char>>,
    cell_h: int,
    terminal_height: int,
)
    requires
        1 <= terminal_height,
    ensures
        ({
            let m = started(content, images, filename, cell_h, terminal_height);
            &&& m.content == content
            &&& m.images == images
            &&& m.state.scroll == 0
            &&& m.state.total == content.len()
            &&& m.state.height == terminal_height - 1
            &&& m.state.links == links::links_of(ansi::line_models(content))
            &&& m.state.focused is None
            &&& m.state.hovered is None
            &&& m.state.search is Normal
            &&& m.state.drag is None
            &&& m.state.filename == filename
            &&& m.state.cell_h == cell_h
            &&& m.pending is None
            &&& next(m).0 is Draw
        }),
{
}

/// The screen is drawn before a link is opened, and a link is opened before an event is read. Each is
/// asked for once, and nothing else of the session changes.
pub proof fn law_order_of_actions(m: SessionModel)
    requires
        m.running,
    ensures
        m.redraw ==> next(m) == (ActionModel::Draw, SessionModel { redraw: false, ..m }),
        !m.redraw && m.pending is Some ==> next(m) == (
            ActionModel::Open(m.pending->0),
            SessionModel { pending: None, ..m },
        ),
        !m.redraw && m.pending is None ==> next(m) == (ActionModel::Read, m),
{
}

/// Events never change the text, and never take back that the screen is to be drawn or that a link
/// is to be opened.
pub proof fn law_events_keep(m: SessionModel, e: Event)
    ensures
        ({
            let n = handled(m, e);
            &&& n.content == m.content
            &&& n.images == m.images
            &&& m.redraw ==> n.redraw
            &&& m.pending is Some ==> n.pending is Some
            &&& !m.running ==> !n.running
            &&& e is Other ==> n == m
        }),
{
}

/// A key or a movement of the pointer does to the session what it does to the state: the screen is
/// drawn if it asks for that, a link it opens is opened, and the session ends if it ends the pager.
pub proof fn law_events_reach_state(m: SessionModel, key: KeyEvent, mouse: MouseEvent)
    requires
        m.running,
        !m.redraw,
        m.pending is None,
    ensures
        ({
            let n = handled(m, Event::Key(key));
            let step = input::key_step(
                m.state,
                key,
                input::typed_matches(m.state, m.content),
            );
            &&& n.state == step.state
            &&& n.redraw == step.redraw
            &&& n.running == step.running
            &&& n.pending == step.open
        }),
        ({
            let n = handled(m, Event::Mouse(mouse));
            let step = input::mouse_step(m.state, mouse);
            &&& n.state == step.state
            &&& n.redraw == step.redraw
            &&& n.running == step.running
            &&& n.pending == step.open
        }),
{
}

/// After a resize all rows but the last are for text, and the line that is to be in the middle is
/// shown.
pub proof fn law_resize_shows_center(m: SessionModel, height: u16, center: usize)
    requires
        session_ok(m),
        1 < height,
        state::limits(m.state.total, height - 1),
        center < m.state.total,
    ensures
        ({
            let n = handled(m, Event::Resize { height, center }).state;
            &&& n.height == height - 1
            &&& n.scroll <= center < n.scroll + n.height
            &&& n == (StateModel { scroll: n.scroll, height: n.height, ..m.state })
        }),
{
}

/// A resize is followed by drawing the screen.
pub proof fn law_resize_draws(m: SessionModel, height: u16, center: usize)
    requires
        m.running,
    ensures
        next(handled(m, Event::Resize { height, center })).0 is Draw,
{
}

} // verus!
