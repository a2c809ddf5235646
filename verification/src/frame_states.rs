//! What elements keep from one frame to the next, and the frames that were asked for.
use vstd::prelude::*;
use std::collections::HashMap;

verus! {

broadcast use vstd::std_specs::hash::group_hash_axioms;

/// The states of elements in the frame that is being painted, and those that are left of the one
/// before.
pub struct FrameStates {
    current: HashMap<u64, u64>,
    previous: HashMap<u64, u64>,
}

/// The meaning of the states.
#[verifier::ext_equal]
pub struct FrameStatesView {
    pub current: Map<u64, u64>,
    pub previous: Map<u64, u64>,
}

impl View for FrameStates {
    type V = FrameStatesView;

    closed spec fn view(&self) -> FrameStatesView {
        FrameStatesView { current: self.current@, previous: self.previous@ }
    }
}

/// The state of an element: that of this frame, or else that of the one before.
pub open spec fn state_of(s: FrameStatesView, id: u64) -> Option<u64> {
    if s.current.dom().contains(id) {
        Some(s.current[id])
    } else if s.previous.dom().contains(id) {
        Some(s.previous[id])
    } else {
        None
    }
}

/// The states after that of an element was taken out.
pub open spec fn without_state(s: FrameStatesView, id: u64) -> FrameStatesView {
    if s.current.dom().contains(id) {
        FrameStatesView { current: s.current.remove(id), ..s }
    } else {
        FrameStatesView { previous: s.previous.remove(id), ..s }
    }
}

/// The states with that of an element.
pub open spec fn with_state(s: FrameStatesView, id: u64, state: u64) -> FrameStatesView {
    FrameStatesView { current: s.current.insert(id, state), ..s }
}

/// The states when a new frame begins.
pub open spec fn next_frame(s: FrameStatesView) -> FrameStatesView {
    FrameStatesView { current: Map::empty(), previous: s.current }
}

/// An element that is painted in a frame has its state in the next one.
pub proof fn state_lasts_a_frame(s: FrameStatesView, id: u64, state: u64)
    ensures
        state_of(next_frame(with_state(s, id, state)), id) == Some(state),
{
}

/// An element that is not painted in a frame has lost its state in the next one.
pub proof fn unused_state_is_forgotten(s: FrameStatesView, id: u64)
    requires
        !s.current.dom().contains(id),
    ensures
        state_of(next_frame(s), id) is None,
{
}

impl FrameStates {
    /// No states.
    pub fn new() -> (r: FrameStates)
        ensures
            r@ == (FrameStatesView { current: Map::empty(), previous: Map::empty() }),
    {
        let r = FrameStates { current: HashMap::new(), previous: HashMap::new() };
        assert(r@ =~= FrameStatesView { current: Map::empty(), previous: Map::empty() });
        r
    }

    /// Takes the state of an element out, for as long as it is painted.
    pub fn take(&mut self, id: u64) -> (r: Option<u64>)
        ensures
            r == state_of(old(self)@, id),
            final(self)@ == without_state(old(self)@, id),
    {
        let found: Option<u64> = match self.current.remove(&id) {
            Some(state) => Some(state),
            None => self.previous.remove(&id),
        };
        assert(self@ =~= without_state(old(self)@, id));
        found
    }

    /// Puts the state of an element back.
    pub fn put(&mut self, id: u64, state: u64)
        ensures
            final(self)@ == with_state(old(self)@, id, state),
    {
        self.current.insert(id, state);
    }

    /// Begins a new frame.
    pub fn start_frame(&mut self)
        ensures
            final(self)@ == next_frame(old(self)@),
    {
        let mut states: HashMap<u64, u64> = HashMap::new();
        std::mem::swap(&mut states, &mut self.current);
        self.previous = states;
        assert(self@ =~= next_frame(old(self)@));
    }
}

impl Default for FrameStates {
    fn default() -> (r: Self)
        ensures
            r@ == (FrameStatesView { current: Map::empty(), previous: Map::empty() }),
    {
        FrameStates::new()
    }
}

/// What has to be done so that a callback is called in the next frame of a display.
#[derive(Clone, Copy, Debug, PartialEq, Eq, Structural)]
pub enum FrameRequest {
    /// A frame is coming anyway.
    Scheduled,
    /// The display has to be started.
    Start,
    /// The display has to be told whom to call, and then started.
    ListenAndStart,
}

/// The callbacks that wait for the next frame of each display.
pub struct NextFrameCallbacks {
    callbacks: HashMap<u64, Vec<usize>>,
}

impl View for NextFrameCallbacks {
    type V = Map<u64, Seq<usize>>;

    closed spec fn view(&self) -> Map<u64, Seq<usize>> {
        self.callbacks@.map_values(|list: Vec<usize>| list@)
    }
}

impl NextFrameCallbacks {
    /// No callbacks.
    pub fn new() -> (r: NextFrameCallbacks)
        ensures
            r@ == Map::<u64, Seq<usize>>::empty(),
    {
        let r = NextFrameCallbacks { callbacks: HashMap::new() };
        assert(r@ =~= Map::empty());
        r
    }

    /// Has a callback called in the next frame of a display.
    pub fn on_next_frame(&mut self, display: u64, callback: usize) -> (r: FrameRequest)
        ensures
            r == (if !old(self)@.dom().contains(display) {
                FrameRequest::ListenAndStart
            } else if old(self)@[display].len() == 0 {
                FrameRequest::Start
            } else {
                FrameRequest::Scheduled
            }),
            final(self)@ == old(self)@.insert(
                display,
                if old(self)@.dom().contains(display) {
                    old(self)@[display].push(callback)
                } else {
                    seq![callback]
                },
            ),
    {
        match self.callbacks.remove(&display) {
            Some(list) => {
                let ghost before = list@;
                let mut list: Vec<usize> = list;
                let waiting: usize = list.len();
                list.push(callback);
                self.callbacks.insert(display, list);
                assert(self@ =~= old(self)@.insert(display, before.push(callback)));
                if waiting > 0 {
                    FrameRequest::Scheduled
                } else {
                    FrameRequest::Start
                }
            },
            None => {
                let mut list: Vec<usize> = Vec::new();
                list.push(callback);
                assert(list@ =~= seq![callback]);
                self.callbacks.insert(display, list);
                assert(self@ =~= old(self)@.insert(display, seq![callback]));
                FrameRequest::ListenAndStart
            },
        }
    }

    /// A frame of a display came: hands over the callbacks, in the order in which they were added.
    pub fn frame(&mut self, display: u64) -> (r: Vec<usize>)
        requires
            old(self)@.dom().contains(display),
        ensures
            r@ == old(self)@[display],
            final(self)@ == old(self)@.insert(display, Seq::empty()),
    {
        match self.callbacks.remove(&display) {
            Some(list) => {
                self.callbacks.insert(display, Vec::new());
                assert(self@ =~= old(self)@.insert(display, Seq::empty()));
                list
            },
            None => Vec::new(),
        }
    }

    /// Whether a display can be stopped, as nobody waits for it.
    pub fn can_stop(&self, display: u64) -> (r: bool)
        requires
            self@.dom().contains(display),
        ensures
            r == (self@[display].len() == 0),
    {
        match self.callbacks.get(&display) {
            Some(list) => list.len() == 0,
            None => true,
        }
    }
}

impl Default for NextFrameCallbacks {
    fn default() -> (r: Self)
        ensures
            r@ == Map::<u64, Seq<usize>>::empty(),
    {
        NextFrameCallbacks::new()
    }
}

/// A state that is set is found, and no other changes; one that is taken is found no more in the frame
/// it was taken from.
pub proof fn states_are_kept_by_their_elements(
    s: FrameStatesView,
    id: u64,
    other: u64,
    state: u64,
)
    ensures
        state_of(with_state(s, id, state), id) == Some(state),
        other != id ==> state_of(with_state(s, id, state), other) == state_of(s, other),
        other != id ==> state_of(without_state(s, id), other) == state_of(s, other),
        s.current.dom().contains(id) ==> without_state(s, id).previous == s.previous
            && !without_state(s, id).current.dom().contains(id),
        !s.current.dom().contains(id) ==> state_of(without_state(s, id), id) is None,
{
}

/// The state of this frame counts before that of the frame before.
pub proof fn newer_states_count(s: FrameStatesView, id: u64)
    ensures
        s.current.dom().contains(id) ==> state_of(s, id) == Some(s.current[id]),
        !s.current.dom().contains(id) && s.previous.dom().contains(id) ==> state_of(s, id) == Some(
            s.previous[id],
        ),
        !s.current.dom().contains(id) && !s.previous.dom().contains(id) ==> state_of(s, id) is None,
        next_frame(s).previous == s.current,
{
}

} // verus!
