//! Routes the signals of the windowing platform to the instance they concern,
//! and says what the platform is to do next.

use vstd::prelude::*;
use num::Complex;
use crate::window::JlMbMode;
use crate::window::JlMbWindow;

verus! {

/// What the platform reports.
#[derive(Debug, PartialEq)]
#[verifier::reject_recursive_types(T)]
pub enum Signal<T> {
    /// The window now measures `width` by `height`.
    Resized { window_id: u64, width: u32, height: u32 },
    /// The window wants its frame drawn anew.
    RedrawRequested { window_id: u64 },
    /// The pointer moved over the window; `position` is the point of the
    /// complex plane that it now rests on.
    CursorMoved { window_id: u64, position: Complex<T> },
    /// The window is about to close.
    CloseRequested { window_id: u64 },
}

/// What the platform is to do in answer to a signal.
#[derive(Clone, Copy, Debug, PartialEq, Eq, Structural)]
pub enum Action {
    /// Nothing.
    Ignore,
    /// Resize the window's surface and buffer, then ask for a redraw.
    Resize { window_id: u64, width: u32, height: u32 },
    /// Draw the instance's frame and present it.
    Render { window_id: u64 },
    /// Let go of the window; others are still open.
    Close { window_id: u64 },
    /// Let go of the last window and shut down.
    Shutdown,
}

/// Whether one of the instances belongs to the window `id`.
pub open spec fn holds<T>(windows: Seq<JlMbWindow<T>>, id: u64) -> bool {
    exists|i: int| 0 <= i < windows.len() && (#[trigger] windows[i]).id == id
}

/// Where the instance of the window `id` stands, if there is one.
pub open spec fn slot<T>(windows: Seq<JlMbWindow<T>>, id: u64) -> int {
    choose|i: int| 0 <= i < windows.len() && (#[trigger] windows[i]).id == id
}

/// Whether no two instances belong to one window.
pub open spec fn distinct<T>(windows: Seq<JlMbWindow<T>>) -> bool {
    forall|i: int, j: int|
        0 <= i < j < windows.len() ==> (#[trigger] windows[i]).id != (#[trigger] windows[j]).id
}

/// What a coordinator holds: its instances in the order in which they came,
/// and the coupling, if any, as the driving window and the dependent one.
#[verifier::reject_recursive_types(T)]
pub struct State<T> {
    pub windows: Seq<JlMbWindow<T>>,
    pub link: Option<(u64, u64)>,
}

impl<T> State<T> {
    /// Every window has one instance, and a coupling joins two different
    /// windows of which the dependent one shows a Julia set.
    pub open spec fn well_formed(self) -> bool {
        &&& distinct(self.windows)
        &&& self.link matches Some((driving, dependent)) ==> {
            &&& driving != dependent
            &&& holds(self.windows, driving)
            &&& holds(self.windows, dependent)
            &&& self.windows[slot(self.windows, dependent)].vals.mode is Julia
        }
    }

    /// A size with a zero in it asks for nothing; a proper one has the buffer
    /// of that window resized and redrawn.
    pub open spec fn on_resized(self, window_id: u64, width: u32, height: u32) -> (Self, Action) {
        if holds(self.windows, window_id) {
            let i = slot(self.windows, window_id);
            (
                State {
                    windows: self.windows.update(i, self.windows[i].resized(width, height)),
                    ..self
                },
                if width != 0 && height != 0 {
                    Action::Resize { window_id, width, height }
                } else {
                    Action::Ignore
                },
            )
        } else {
            (self, Action::Ignore)
        }
    }

    /// A known window is rendered.
    pub open spec fn on_redraw_requested(self, window_id: u64) -> (Self, Action) {
        if holds(self.windows, window_id) {
            (self, Action::Render { window_id })
        } else {
            (self, Action::Ignore)
        }
    }

    /// The pointer over the driving window sets the parameter of the
    /// dependent one, which is rendered. Over any other window it does
    /// nothing.
    pub open spec fn on_cursor_moved(self, window_id: u64, position: Complex<T>) -> (Self, Action) {
        match self.link {
            Some((driving, dependent)) if driving == window_id => {
                let j = slot(self.windows, dependent);
                (
                    State {
                        windows: self.windows.update(j, self.windows[j].with_init_val(position)),
                        ..self
                    },
                    Action::Render { window_id: dependent },
                )
            },
            _ => (self, Action::Ignore),
        }
    }

    /// A known window loses its instance, and its coupling with it. When it
    /// was the last, the process shuts down.
    pub open spec fn on_close_requested(self, window_id: u64) -> (Self, Action) {
        if holds(self.windows, window_id) {
            let rest = self.windows.remove(slot(self.windows, window_id));
            let link = match self.link {
                Some((driving, dependent)) if driving == window_id || dependent == window_id => {
                    None
                },
                other => other,
            };
            (
                State { windows: rest, link },
                if rest.len() == 0 {
                    Action::Shutdown
                } else {
                    Action::Close { window_id }
                },
            )
        } else {
            (self, Action::Ignore)
        }
    }

    /// The state after a signal, and the action that answers it.
    pub open spec fn step(self, signal: Signal<T>) -> (Self, Action) {
        match signal {
            Signal::Resized { window_id, width, height } => self.on_resized(
                window_id,
                width,
                height,
            ),
            Signal::RedrawRequested { window_id } => self.on_redraw_requested(window_id),
            Signal::CursorMoved { window_id, position } => self.on_cursor_moved(
                window_id,
                position,
            ),
            Signal::CloseRequested { window_id } => self.on_close_requested(window_id),
        }
    }
}

/// The instances of the live windows, and the coupling between two of them.
///
/// A coordinator starts out well formed and every function keeps it so. The
/// functions still ask for it, since each is verified on its own.
#[verifier::reject_recursive_types(T)]
pub struct Coordinator<T> {
    windows: Vec<JlMbWindow<T>>,
    link: Option<(u64, u64)>,
}

impl<T> View for Coordinator<T> {
    type V = State<T>;

    closed spec fn view(&self) -> State<T> {
        State { windows: self.windows@, link: self.link }
    }
}

/// With one instance per window, the instance of a window stands where
/// `slot` says.
pub proof fn lemma_slot_is_unique<T>(windows: Seq<JlMbWindow<T>>, i: int)
    requires
        distinct(windows),
        0 <= i < windows.len(),
    ensures
        holds(windows, windows[i].id),
        slot(windows, windows[i].id) == i,
{
    let j = slot(windows, windows[i].id);
    assert(0 <= j < windows.len() && windows[j].id == windows[i].id);
}

impl<T> Coordinator<T> {
    /// A coordinator without windows.
    pub fn new() -> (c: Self)
        ensures
            c@ == (State::<T> { windows: Seq::empty(), link: None }),
            c@.well_formed(),
    {
        Coordinator { windows: Vec::new(), link: None }
    }

    /// The number of live windows.
    pub fn len(&self) -> (n: usize)
        ensures
            n == self@.windows.len(),
    {
        self.windows.len()
    }

    /// Where the instance of the window `id` stands.
    fn find(&self, id: u64) -> (r: Option<usize>)
        requires
            self@.well_formed(),
        ensures
            r is Some <==> holds(self@.windows, id),
            r matches Some(i) ==> i < self@.windows.len() && i == slot(self@.windows, id)
                && self@.windows[i as int].id == id,
    {
        let mut i: usize = 0;
        while i < self.windows.len()
            invariant
                i <= self.windows@.len(),
                distinct(self.windows@),
                forall|k: int| 0 <= k < i ==> (#[trigger] self.windows@[k]).id != id,
            decreases self.windows@.len() - i,
        {
            if self.windows[i].id == id {
                proof {
                    lemma_slot_is_unique(self.windows@, i as int);
                }
                return Some(i);
            }
            i += 1;
        }
        None
    }

    /// The instance of the window `id`, if it is live.
    pub fn window(&self, id: u64) -> (w: Option<&JlMbWindow<T>>)
        requires
            self@.well_formed(),
        ensures
            w is Some <==> holds(self@.windows, id),
            w matches Some(x) ==> *x == self@.windows[slot(self@.windows, id)],
    {
        match self.find(id) {
            Some(i) => Some(&self.windows[i]),
            None => None,
        }
    }

    /// The coupling, as the driving window and the dependent one.
    pub fn coupling(&self) -> (link: Option<(u64, u64)>)
        ensures
            link == self@.link,
    {
        self.link
    }

    /// Takes in the instance of a new window, and says whether it did: a
    /// window that has an instance keeps it.
    pub fn add(&mut self, window: JlMbWindow<T>) -> (added: bool)
        requires
            old(self)@.well_formed(),
        ensures
            final(self)@.well_formed(),
            added == !holds(old(self)@.windows, window.id),
            added ==> final(self)@ == (State {
                windows: old(self)@.windows.push(window),
                ..old(self)@
            }),
            !added ==> final(self)@ == old(self)@,
    {
        if self.find(window.id).is_some() {
            return false;
        }
        let ghost before = self.windows@;
        let ghost id = window.id;
        self.windows.push(window);
        proof {
            let after = self.windows@;
            assert forall|k: int| 0 <= k < before.len() implies after[k] == before[k] by {}
            assert forall|i: int, j: int| 0 <= i < j < after.len() implies (#[trigger] after[i]).id
                != (#[trigger] after[j]).id by {
                if j < before.len() {
                    assert(before[i].id != before[j].id);
                } else {
                    assert(before[i].id != id);
                }
            }
            if let Some((driving, dependent)) = self.link {
                let a = slot(before, driving);
                let b = slot(before, dependent);
                assert(after[a] == before[a] && after[b] == before[b]);
                lemma_slot_is_unique(after, a);
                lemma_slot_is_unique(after, b);
            }
        }
        true
    }

    /// Couples two live windows, and says whether it did: from now on the
    /// pointer over `driving` sets the parameter of `dependent`, which must
    /// show a Julia set and be another window.
    pub fn link(&mut self, driving: u64, dependent: u64) -> (linked: bool)
        requires
            old(self)@.well_formed(),
        ensures
            final(self)@.well_formed(),
            linked == (driving != dependent && holds(old(self)@.windows, driving) && holds(
                old(self)@.windows,
                dependent,
            ) && old(self)@.windows[slot(old(self)@.windows, dependent)].vals.mode is Julia),
            linked ==> final(self)@ == (State { link: Some((driving, dependent)), ..old(self)@ }),
            !linked ==> final(self)@ == old(self)@,
    {
        if driving == dependent || self.find(driving).is_none() {
            return false;
        }
        match self.find(dependent) {
            Some(j) => {
                match self.windows[j].vals.mode {
                    JlMbMode::Julia(_) => {
                        self.link = Some((driving, dependent));
                        true
                    },
                    JlMbMode::Mandelbrot => false,
                }
            },
            None => false,
        }
    }

    /// Answers a signal: brings the instances up to date and says what the
    /// platform is to do.
    pub fn dispatch(&mut self, signal: Signal<T>) -> (action: Action)
        requires
            old(self)@.well_formed(),
        ensures
            (final(self)@, action) == old(self)@.step(signal),
            final(self)@.well_formed(),
    {
        match signal {
            Signal::Resized { window_id, width, height } => self.resized(window_id, width, height),
            Signal::RedrawRequested { window_id } => self.redraw_requested(window_id),
            Signal::CursorMoved { window_id, position } => self.cursor_moved(window_id, position),
            Signal::CloseRequested { window_id } => self.close_requested(window_id),
        }
    }

    /// The window `window_id` now measures `width` by `height`.
    pub fn resized(&mut self, window_id: u64, width: u32, height: u32) -> (action: Action)
        requires
            old(self)@.well_formed(),
        ensures
            (final(self)@, action) == old(self)@.on_resized(window_id, width, height),
            final(self)@.well_formed(),
    {
        match self.find(window_id) {
            Some(i) => {
                let ghost before = self.windows@;
                let resized = self.windows[i].resize(width, height);
                proof {
                    let after = self.windows@;
                    assert(after =~= before.update(
                        i as int,
                        before[i as int].resized(width, height),
                    ));
                    lemma_same_windows(before, after, self.link);
                }
                if resized {
                    Action::Resize { window_id, width, height }
                } else {
                    Action::Ignore
                }
            },
            None => Action::Ignore,
        }
    }

    /// The window `window_id` wants its frame drawn anew.
    pub fn redraw_requested(&self, window_id: u64) -> (action: Action)
        requires
            self@.well_formed(),
        ensures
            (self@, action) == self@.on_redraw_requested(window_id),
    {
        match self.find(window_id) {
            Some(_) => Action::Render { window_id },
            None => Action::Ignore,
        }
    }

    /// The pointer moved over the window `window_id`, to the point `position`
    /// of the complex plane.
    pub fn cursor_moved(&mut self, window_id: u64, position: Complex<T>) -> (action: Action)
        requires
            old(self)@.well_formed(),
        ensures
            (final(self)@, action) == old(self)@.on_cursor_moved(window_id, position),
            final(self)@.well_formed(),
    {
        match self.link {
            Some((driving, dependent)) => {
                if driving != window_id {
                    return Action::Ignore;
                }
                match self.find(dependent) {
                    Some(j) => {
                        let ghost before = self.windows@;
                        self.windows[j].set_init_val(position);
                        proof {
                            let after = self.windows@;
                            assert(after =~= before.update(
                                j as int,
                                before[j as int].with_init_val(position),
                            ));
                            lemma_same_windows(before, after, self.link);
                        }
                        Action::Render { window_id: dependent }
                    },
                    None => Action::Ignore,
                }
            },
            None => Action::Ignore,
        }
    }

    /// The window `window_id` is about to close.
    pub fn close_requested(&mut self, window_id: u64) -> (action: Action)
        requires
            old(self)@.well_formed(),
        ensures
            (final(self)@, action) == old(self)@.on_close_requested(window_id),
            final(self)@.well_formed(),
    {
        match self.find(window_id) {
            Some(i) => {
                let ghost before = self.windows@;
                match self.link {
                    Some((driving, dependent)) => {
                        if driving == window_id || dependent == window_id {
                            self.link = None;
                        }
                    },
                    None => {},
                }
                self.windows.remove(i);
                proof {
                    lemma_without_window(before, i as int, self.link);
                }
                if self.windows.len() == 0 {
                    Action::Shutdown
                } else {
                    Action::Close { window_id }
                }
            },
            None => Action::Ignore,
        }
    }
}

/// A size with a zero in it leaves every buffer as large as it was and asks
/// neither for a resize nor for a render; the window that it concerns cannot
/// be drawn until a proper size arrives.
pub proof fn lemma_zero_size_asks_for_nothing<T>(
    state: State<T>,
    window_id: u64,
    width: u32,
    height: u32,
)
    requires
        state.well_formed(),
        width == 0 || height == 0,
    ensures
        ({
            let (after, action) = state.step(Signal::Resized { window_id, width, height });
            &&& action == Action::Ignore
            &&& after.link == state.link
            &&& after.windows.len() == state.windows.len()
            &&& forall|k: int|
                0 <= k < state.windows.len() ==> {
                    &&& (#[trigger] after.windows[k]).width == state.windows[k].width
                    &&& after.windows[k].height == state.windows[k].height
                    &&& after.windows[k].id == state.windows[k].id
                    &&& after.windows[k].vals == state.windows[k].vals
                }
            &&& holds(state.windows, window_id) ==> !after.windows[slot(
                state.windows,
                window_id,
            )].renderable()
        }),
{
}

/// The pointer over the driving window makes its point the parameter of the
/// dependent window's Julia set and has that window rendered, once. Nothing
/// else changes: not the driving window, which is not rendered, nor any
/// other.
pub proof fn lemma_pointer_drives_dependent<T>(
    state: State<T>,
    driving: u64,
    dependent: u64,
    position: Complex<T>,
)
    requires
        state.well_formed(),
        state.link == Some((driving, dependent)),
    ensures
        ({
            let (after, action) = state.step(Signal::CursorMoved { window_id: driving, position });
            let i = slot(state.windows, driving);
            let j = slot(state.windows, dependent);
            &&& action == Action::Render { window_id: dependent }
            &&& dependent != driving
            &&& after.well_formed()
            &&& after.link == state.link
            &&& after.windows.len() == state.windows.len()
            &&& after.windows[j] == state.windows[j].with_init_val(position)
            &&& after.windows[j].id == dependent
            &&& after.windows[j].vals.mode == JlMbMode::Julia(position)
            &&& after.windows[i] == state.windows[i]
            &&& forall|k: int|
                0 <= k < state.windows.len() && k != j ==> #[trigger] after.windows[k]
                    == state.windows[k]
        }),
{
    let (after, action) = state.step(Signal::CursorMoved { window_id: driving, position });
    let i = slot(state.windows, driving);
    let j = slot(state.windows, dependent);
    assert(i != j);
    lemma_same_windows(state.windows, after.windows, state.link);
}

/// The coupling runs one way: the pointer over a window that drives nothing
/// changes nothing and asks for nothing.
pub proof fn lemma_pointer_elsewhere_is_ignored<T>(
    state: State<T>,
    window_id: u64,
    position: Complex<T>,
)
    requires
        state.link matches Some((driving, _)) ==> driving != window_id,
    ensures
        state.step(Signal::CursorMoved { window_id, position }) == (state, Action::Ignore),
{
}

/// A change that keeps every window's identity and every Julia set a Julia
/// set keeps the state well formed, and every instance in its slot.
proof fn lemma_same_windows<T>(
    before: Seq<JlMbWindow<T>>,
    after: Seq<JlMbWindow<T>>,
    link: Option<(u64, u64)>,
)
    requires
        (State { windows: before, link }).well_formed(),
        after.len() == before.len(),
        forall|k: int|
            0 <= k < before.len() ==> (#[trigger] after[k]).id == before[k].id && (
            before[k].vals.mode is Julia ==> after[k].vals.mode is Julia),
    ensures
        (State { windows: after, link }).well_formed(),
        forall|id: u64| holds(before, id) == holds(after, id),
        forall|id: u64| holds(before, id) ==> slot(before, id) == slot(after, id),
{
    assert forall|i: int, j: int| 0 <= i < j < after.len() implies (#[trigger] after[i]).id != (
    #[trigger] after[j]).id by {
        assert(before[i].id != before[j].id);
    }
    assert forall|id: u64| holds(before, id) == holds(after, id) by {
        if holds(before, id) {
            let i = slot(before, id);
            assert(after[i].id == id);
        }
        if holds(after, id) {
            let i = slot(after, id);
            assert(before[i].id == id);
        }
    }
    assert forall|id: u64| holds(before, id) implies slot(before, id) == slot(after, id) by {
        let i = slot(before, id);
        assert(after[i].id == id);
        lemma_slot_is_unique(after, i);
    }
}

/// Taking one window out keeps the state well formed, once a coupling that
/// it was part of is gone.
proof fn lemma_without_window<T>(before: Seq<JlMbWindow<T>>, i: int, link: Option<(u64, u64)>)
    requires
        distinct(before),
        0 <= i < before.len(),
        link matches Some((driving, dependent)) ==> {
            &&& driving != dependent
            &&& driving != before[i].id
            &&& dependent != before[i].id
            &&& holds(before, driving)
            &&& holds(before, dependent)
            &&& before[slot(before, dependent)].vals.mode is Julia
        },
    ensures
        (State { windows: before.remove(i), link }).well_formed(),
{
    let after = before.remove(i);
    assert forall|a: int, b: int| 0 <= a < b < after.len() implies (#[trigger] after[a]).id != (
    #[trigger] after[b]).id by {
        let a0 = if a < i { a } else { a + 1 };
        let b0 = if b < i { b } else { b + 1 };
        assert(after[a] == before[a0] && after[b] == before[b0]);
        assert(before[a0].id != before[b0].id);
    }
    if let Some((driving, dependent)) = link {
        let a = slot(before, driving);
        let b = slot(before, dependent);
        let a1 = if a < i { a } else { a - 1 };
        let b1 = if b < i { b } else { b - 1 };
        assert(after[a1] == before[a] && after[b1] == before[b]);
        lemma_slot_is_unique(after, a1);
        lemma_slot_is_unique(after, b1);
    }
}

} // verus!
