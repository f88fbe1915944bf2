//! The zoom state of an interactive session: what each input event does
//! to it, and what the caller is to do next.

use vstd::prelude::*;

verus! {

/// Width in pixels of the rectangle that a click selects.
pub const SELECTION_WIDTH: u32 = 90;

/// Height in pixels of the rectangle that a click selects.
pub const SELECTION_HEIGHT: u32 = 60;

/// An input event, with the pointer's place in pixels where it has one.
#[derive(Clone, Copy, Debug, PartialEq, Eq, Structural)]
pub enum Event {
    LeftClick { x: i32, y: i32 },
    RightClick { x: i32, y: i32 },
    PointerMove { x: i32, y: i32 },
    Close,
}

/// A rectangle of the window in pixels. It may reach over the window's
/// edge, so its corner may be negative.
#[derive(Clone, Copy, Debug, PartialEq, Eq, Structural)]
pub struct Selection {
    pub left: i64,
    pub top: i64,
    pub width: u32,
    pub height: u32,
}

/// The viewport of the next render pass.
#[derive(Clone, Copy, Debug, PartialEq, Eq, Structural)]
pub enum Region {
    /// The default viewport.
    Default,
    /// The part of the current viewport that the rectangle shows.
    Within(Selection),
}

/// What the caller is to do after an event.
#[derive(Clone, Copy, Debug, PartialEq, Eq, Structural)]
pub enum Action {
    /// Take the region as the viewport and render it under this cap.
    Render { region: Region, max_iter: u32 },
    /// Move the selection frame to the pointer.
    MoveCursor { x: i32, y: i32 },
    /// End the session.
    Quit,
    /// Nothing.
    Ignore,
}

/// The state of a session as a value: the cap at zoom level zero, and the
/// number of zooms since the last reset.
#[derive(PartialEq, Eq, Structural)]
pub ghost struct SessionState {
    pub base_cap: u32,
    pub zoom_level: u32,
}

/// The iteration cap at a zoom level: the base cap once more for each
/// level.
pub open spec fn scaled_cap(base_cap: u32, zoom_level: int) -> int {
    base_cap * (zoom_level + 1)
}

/// The rectangle that a click at (`x`, `y`) selects: of the fixed size,
/// with the click at its middle.
pub open spec fn selection_at(x: i32, y: i32) -> Selection {
    Selection {
        left: (x - SELECTION_WIDTH / 2) as i64,
        top: (y - SELECTION_HEIGHT / 2) as i64,
        width: SELECTION_WIDTH,
        height: SELECTION_HEIGHT,
    }
}

impl SessionState {
    /// The state at the start and after a reset.
    pub open spec fn initial(base_cap: u32) -> SessionState {
        SessionState { base_cap, zoom_level: 0 }
    }

    /// A state of a session: the base cap is positive and the cap in
    /// force fits in 32 bits.
    pub open spec fn wf(self) -> bool {
        self.base_cap > 0 && scaled_cap(self.base_cap, self.zoom_level as int) <= u32::MAX
    }

    /// Whether the session is at its default viewport.
    pub open spec fn is_default(self) -> bool {
        self.zoom_level == 0
    }

    /// The cap in force.
    pub open spec fn cap(self) -> int {
        scaled_cap(self.base_cap, self.zoom_level as int)
    }

    /// Whether the cap of the next zoom level still fits in 32 bits.
    pub open spec fn can_zoom(self) -> bool {
        scaled_cap(self.base_cap, self.zoom_level + 1) <= u32::MAX
    }

    /// What the first render pass of a session is.
    pub open spec fn first_action(self) -> Action {
        Action::Render { region: Region::Default, max_iter: self.base_cap }
    }

    /// The state after a reset.
    pub open spec fn reset(self) -> SessionState {
        SessionState::initial(self.base_cap)
    }

    /// The state after a zoom at a click; the click's place does not
    /// enter the state. Where the next cap would not fit, nothing changes.
    pub open spec fn zoom_in(self) -> SessionState {
        if self.can_zoom() {
            SessionState { base_cap: self.base_cap, zoom_level: (self.zoom_level + 1) as u32 }
        } else {
            self
        }
    }

    /// The state after an event.
    pub open spec fn next(self, event: Event) -> SessionState {
        match event {
            Event::LeftClick { x, y } => self.zoom_in(),
            Event::RightClick { x, y } => self.reset(),
            Event::PointerMove { x, y } => self,
            Event::Close => self,
        }
    }

    /// What the caller is to do after an event that came in this state.
    pub open spec fn action(self, event: Event) -> Action {
        match event {
            Event::LeftClick { x, y } => if self.can_zoom() {
                Action::Render {
                    region: Region::Within(selection_at(x, y)),
                    max_iter: scaled_cap(self.base_cap, self.zoom_level + 1) as u32,
                }
            } else {
                Action::Ignore
            },
            Event::RightClick { x, y } => self.first_action(),
            Event::PointerMove { x, y } => Action::MoveCursor { x, y },
            Event::Close => Action::Quit,
        }
    }

    /// The state after the events, taken in their order.
    pub open spec fn after(self, events: Seq<Event>) -> SessionState
        decreases events.len(),
    {
        if events.len() == 0 {
            self
        } else {
            self.after(events.drop_last()).next(events.last())
        }
    }
}

/// Where the cap of a level fits in 32 bits, so does the level after it.
pub proof fn lemma_level_below_cap(base_cap: u32, zoom_level: int)
    requires
        base_cap > 0,
        0 <= zoom_level,
        scaled_cap(base_cap, zoom_level) <= u32::MAX,
    ensures
        zoom_level + 1 <= u32::MAX,
        scaled_cap(base_cap, 0) == base_cap,
{
    assert(zoom_level + 1 <= base_cap * (zoom_level + 1)) by (nonlinear_arith)
        requires
            base_cap >= 1,
            zoom_level >= 0,
    ;
    assert(base_cap * (0 + 1) == base_cap) by (nonlinear_arith);
}

/// No event changes the base cap or leaves the states of a session.
pub proof fn lemma_next_keeps_wf(state: SessionState, event: Event)
    requires
        state.wf(),
    ensures
        state.next(event).wf(),
        state.next(event).base_cap == state.base_cap,
{
    lemma_level_below_cap(state.base_cap, state.zoom_level as int);
    if state.can_zoom() {
        lemma_level_below_cap(state.base_cap, state.zoom_level + 1);
    }
}

/// No run of events changes the base cap or leaves the states of a
/// session.
pub proof fn lemma_after_keeps_wf(state: SessionState, events: Seq<Event>)
    requires
        state.wf(),
    ensures
        state.after(events).wf(),
        state.after(events).base_cap == state.base_cap,
    decreases events.len(),
{
    if events.len() > 0 {
        lemma_after_keeps_wf(state, events.drop_last());
        lemma_next_keeps_wf(state.after(events.drop_last()), events.last());
    }
}

/// The zoom level counts the zooms: after a run of left clicks, each of
/// which found room to zoom, it has grown by their number.
pub proof fn lemma_zoom_level_counts(state: SessionState, events: Seq<Event>)
    requires
        state.wf(),
        forall|i: int| 0 <= i < events.len() ==> (#[trigger] events[i]) is LeftClick,
        scaled_cap(state.base_cap, state.zoom_level + events.len()) <= u32::MAX,
    ensures
        state.after(events).zoom_level == state.zoom_level + events.len(),
    decreases events.len(),
{
    if events.len() > 0 {
        let shorter = events.drop_last();
        let base = state.base_cap as int;
        let reached = state.zoom_level + shorter.len();
        assert(base * (reached + 1) <= base * (reached + 2)) by (nonlinear_arith)
            requires
                base >= 0,
        ;
        lemma_zoom_level_counts(state, shorter);
        lemma_after_keeps_wf(state, shorter);
        assert(events.last() is LeftClick);
        assert(reached + 1 + 1 == state.zoom_level + events.len() + 1);
        assert(state.after(shorter).can_zoom());
        lemma_level_below_cap(state.base_cap, reached + 1);
    }
}

/// A reset undoes every zoom: whatever events came before it, a right
/// click leaves the session as it began, at zoom level zero, and asks for
/// the render pass that the session began with, the default viewport
/// under the base cap.
pub proof fn lemma_reset_restores(state: SessionState, events: Seq<Event>, x: i32, y: i32)
    requires
        state.wf(),
    ensures
        state.after(events).next(Event::RightClick { x, y }) == SessionState::initial(
            state.base_cap,
        ),
        state.after(events).action(Event::RightClick { x, y }) == SessionState::initial(
            state.base_cap,
        ).first_action(),
{
    lemma_after_keeps_wf(state, events);
}

/// An interactive session.
pub struct Session {
    base_cap: u32,
    zoom_level: u32,
}

impl View for Session {
    type V = SessionState;

    closed spec fn view(&self) -> SessionState {
        SessionState { base_cap: self.base_cap, zoom_level: self.zoom_level }
    }
}

impl Session {
    #[verifier::type_invariant]
    spec fn well_formed(self) -> bool {
        self@.wf()
    }

    /// A session at its start, with the cap for zoom level zero; `None`
    /// where that cap is zero.
    pub fn new(base_cap: u32) -> (session: Option<Session>)
        ensures
            base_cap == 0 ==> session is None,
            base_cap > 0 ==> session is Some && session->Some_0@ == SessionState::initial(
                base_cap,
            ),
    {
        if base_cap == 0 {
            None
        } else {
            Some(Session { base_cap, zoom_level: 0 })
        }
    }

    /// The number of zooms since the last reset.
    pub fn zoom_level(&self) -> (level: u32)
        ensures
            level == self@.zoom_level,
    {
        self.zoom_level
    }

    /// The cap for zoom level zero.
    pub fn base_cap(&self) -> (cap: u32)
        ensures
            cap == self@.base_cap,
            cap > 0,
    {
        proof {
            use_type_invariant(self);
        }
        self.base_cap
    }

    /// The cap in force: the base cap times one more than the zoom level.
    pub fn iteration_cap(&self) -> (cap: u32)
        ensures
            cap == self@.cap(),
            self@.wf(),
    {
        proof {
            use_type_invariant(self);
            lemma_level_below_cap(self.base_cap, self.zoom_level as int);
        }
        self.base_cap * (self.zoom_level + 1)
    }

    /// Whether the session shows the default viewport.
    pub fn is_default(&self) -> (yes: bool)
        ensures
            yes == self@.is_default(),
    {
        self.zoom_level == 0
    }

    /// The first render pass: the default viewport under the base cap.
    pub fn start(&self) -> (action: Action)
        ensures
            action == self@.first_action(),
    {
        Action::Render { region: Region::Default, max_iter: self.base_cap }
    }

    /// Goes back to the default viewport and zoom level zero.
    pub fn reset(&mut self) -> (action: Action)
        ensures
            final(self)@ == old(self)@.reset(),
            action == old(self)@.first_action(),
    {
        proof {
            use_type_invariant(&*self);
        }
        self.zoom_level = 0;
        Action::Render { region: Region::Default, max_iter: self.base_cap }
    }

    /// Zooms into the rectangle around a click at (`x`, `y`), and raises
    /// the cap by the base cap. Where the raised cap would not fit in 32
    /// bits the click is ignored.
    pub fn zoom_in(&mut self, x: i32, y: i32) -> (action: Action)
        ensures
            final(self)@ == old(self)@.zoom_in(),
            action == old(self)@.action(Event::LeftClick { x, y }),
    {
        proof {
            use_type_invariant(&*self);
        }
        assert(self.base_cap * (self.zoom_level + 2) <= u64::MAX) by (nonlinear_arith)
            requires
                self.base_cap <= u32::MAX,
                self.zoom_level <= u32::MAX,
        ;
        let wide: u64 = (self.base_cap as u64) * (self.zoom_level as u64 + 2);
        if wide > u32::MAX as u64 {
            return Action::Ignore;
        }
        proof {
            lemma_level_below_cap(self.base_cap, self.zoom_level + 1);
        }
        self.zoom_level = self.zoom_level + 1;
        let selection = Selection {
            left: x as i64 - (SELECTION_WIDTH / 2) as i64,
            top: y as i64 - (SELECTION_HEIGHT / 2) as i64,
            width: SELECTION_WIDTH,
            height: SELECTION_HEIGHT,
        };
        Action::Render { region: Region::Within(selection), max_iter: wide as u32 }
    }

    /// Takes one event: changes the state as the event asks, and says
    /// what the caller is to do.
    pub fn step(&mut self, event: Event) -> (action: Action)
        ensures
            final(self)@ == old(self)@.next(event),
            action == old(self)@.action(event),
    {
        match event {
            Event::LeftClick { x, y } => self.zoom_in(x, y),
            Event::RightClick { x, y } => self.reset(),
            Event::PointerMove { x, y } => Action::MoveCursor { x, y },
            Event::Close => Action::Quit,
        }
    }
}

} // verus!
