//! The two phases in which an event goes through the listeners of a window.
use vstd::prelude::*;

verus! {

/// A phase of dispatch.
#[derive(Clone, Copy, Debug, PartialEq, Eq, Structural)]
pub enum DispatchPhase {
    /// After the capture phase comes the bubble phase, in which listeners are called front to back.
    /// This is the phase that most listeners work in.
    Bubble,
    /// In the capture phase, listeners are called back to front. It serves special purposes, such as
    /// events outside of a listener's own region.
    Capture,
}

impl Default for DispatchPhase {
    fn default() -> (r: Self)
        ensures
            r == DispatchPhase::Bubble,
    {
        DispatchPhase::Bubble
    }
}

/// The calls of listeners in one phase.
pub open spec fn in_phase(listeners: Seq<usize>, phase: DispatchPhase) -> Seq<
    (usize, DispatchPhase),
> {
    listeners.map_values(|l: usize| (l, phase))
}

/// The calls of listeners that stand from back to front: all of them in that order, and then all of
/// them in the opposite order.
pub open spec fn both_phases(listeners: Seq<usize>) -> Seq<(usize, DispatchPhase)> {
    in_phase(listeners, DispatchPhase::Capture) + in_phase(
        listeners.reverse(),
        DispatchPhase::Bubble,
    )
}

/// An event on its way through listeners.
pub struct EventDispatch {
    calls: Vec<(usize, DispatchPhase)>,
    next: usize,
    propagate: bool,
}

impl EventDispatch {
    /// Whether the record makes sense.
    pub closed spec fn wf(self) -> bool {
        self.next <= self.calls@.len()
    }

    /// Whether no listener has stopped the event.
    pub closed spec fn goes_on(self) -> bool {
        self.propagate
    }

    /// The calls that are left.
    pub closed spec fn remaining(self) -> Seq<(usize, DispatchPhase)> {
        if self.propagate {
            self.calls@.skip(self.next as int)
        } else {
            Seq::empty()
        }
    }

    /// A key event, or an action, before its listeners, which stand from back to front. `propagate`
    /// tells whether the last event was not stopped: only an event of the mouse begins afresh. One
    /// that begins stopped still goes to its first listener.
    pub fn for_key(listeners: &Vec<usize>, propagate: bool) -> (r: EventDispatch)
        ensures
            r.wf(),
            r.remaining() == (if propagate || listeners@.len() == 0 {
                both_phases(listeners@)
            } else {
                both_phases(listeners@).take(1)
            }),
    {
        let mut r: EventDispatch = EventDispatch::new(listeners);
        if !propagate && listeners.len() > 0 {
            let first: (usize, DispatchPhase) = (listeners[0], DispatchPhase::Capture);
            let mut calls: Vec<(usize, DispatchPhase)> = Vec::new();
            calls.push(first);
            r.calls = calls;
            r.next = 0;
            assert(r.propagate);
            assert(r.remaining() =~= both_phases(listeners@).take(1));
        }
        r
    }

    /// An event of the mouse before the listeners, which stand from back to front.
    pub fn new(listeners: &Vec<usize>) -> (r: EventDispatch)
        ensures
            r.wf(),
            r.remaining() == both_phases(listeners@),
            r.goes_on(),
    {
        let mut calls: Vec<(usize, DispatchPhase)> = Vec::new();
        let mut i: usize = 0;
        let ghost all = listeners@;
        let ghost capture = in_phase(all, DispatchPhase::Capture);
        while i < listeners.len()
            invariant
                i <= listeners.len(),
                all == listeners@,
                capture == in_phase(all, DispatchPhase::Capture),
                calls@ == capture.take(i as int),
            decreases listeners.len() - i,
        {
            calls.push((listeners[i], DispatchPhase::Capture));
            i += 1;
            assert(calls@ =~= capture.take(i as int));
        }
        assert(capture.take(i as int) =~= capture);
        let ghost bubble = in_phase(all.reverse(), DispatchPhase::Bubble);
        assert(calls@ =~= capture + bubble.take(0));
        while i > 0
            invariant
                i <= listeners.len(),
                all == listeners@,
                bubble == in_phase(all.reverse(), DispatchPhase::Bubble),
                calls@ == capture + bubble.take(all.len() - i),
            decreases i,
        {
            i -= 1;
            let ghost before = calls@;
            calls.push((listeners[i], DispatchPhase::Bubble));
            assert(calls@ =~= capture + bubble.take(all.len() - i));
        }
        assert(bubble.take(all.len() as int) =~= bubble);
        let r = EventDispatch { calls, next: 0, propagate: true };
        assert(r.remaining() =~= both_phases(all));
        r
    }

    /// The next listener to be called, and the phase.
    pub fn next_call(&mut self) -> (r: Option<(usize, DispatchPhase)>)
        requires
            old(self).wf(),
        ensures
            final(self).wf(),
            old(self).remaining().len() == 0 ==> r is None && final(self).remaining() == old(
                self,
            ).remaining(),
            old(self).remaining().len() > 0 ==> r == Some(old(self).remaining()[0])
                && final(self).remaining() == old(self).remaining().skip(1),
    {
        if !self.propagate || self.next >= self.calls.len() {
            return None;
        }
        let call: (usize, DispatchPhase) = self.calls[self.next];
        self.next = self.next + 1;
        assert(self.remaining() =~= old(self).remaining().skip(1));
        Some(call)
    }

    /// A listener was called. If it stopped the event, no other is called, in neither phase.
    pub fn called(&mut self, propagate: bool)
        requires
            old(self).wf(),
        ensures
            final(self).wf(),
            final(self).remaining() == (if propagate {
                old(self).remaining()
            } else {
                Seq::empty()
            }),
    {
        if !propagate {
            self.propagate = false;
        }
    }
}

/// Each listener is called once in each phase, and the one in front, last in the first phase, is the
/// first in the second.
pub proof fn front_listener_turns_the_event(listeners: Seq<usize>, i: int)
    requires
        0 <= i < listeners.len(),
    ensures
        both_phases(listeners).len() == 2 * listeners.len(),
        both_phases(listeners)[i] == (listeners[i], DispatchPhase::Capture),
        both_phases(listeners)[2 * listeners.len() - 1 - i] == (
            listeners[i],
            DispatchPhase::Bubble,
        ),
{
}

/// What listeners have said of the event that is under way in a window.
#[derive(Clone, Copy, Debug, PartialEq, Eq, Structural)]
pub struct EventAnswers {
    pub propagate: bool,
    pub default_prevented: bool,
}

impl EventAnswers {
    /// No event has come yet.
    pub fn new() -> (r: EventAnswers)
        ensures
            r == (EventAnswers { propagate: true, default_prevented: true }),
    {
        EventAnswers { propagate: true, default_prevented: true }
    }

    /// An event begins: that of the mouse afresh, while that of a key takes over what was said last.
    pub fn begin(&mut self, is_mouse: bool)
        ensures
            *final(self) == (if is_mouse {
                EventAnswers { propagate: true, default_prevented: false }
            } else {
                *old(self)
            }),
    {
        if is_mouse {
            self.propagate = true;
            self.default_prevented = false;
        }
    }

    /// No other listener is to be called.
    pub fn stop_propagation(&mut self)
        ensures
            *final(self) == (EventAnswers { propagate: false, ..*old(self) }),
    {
        self.propagate = false;
    }

    /// What usually follows the event is not to be done.
    pub fn prevent_default(&mut self)
        ensures
            *final(self) == (EventAnswers { default_prevented: true, ..*old(self) }),
    {
        self.default_prevented = true;
    }

    /// Whether what usually follows the event is not to be done.
    pub fn default_prevented(&self) -> (r: bool)
        ensures
            r == self.default_prevented,
    {
        self.default_prevented
    }
}

impl Default for EventAnswers {
    fn default() -> (r: Self)
        ensures
            r == (EventAnswers { propagate: true, default_prevented: true }),
    {
        EventAnswers::new()
    }
}

/// A frame of the stack through which key events go: a listener, or a context.
#[derive(Clone, Copy, Debug, PartialEq, Eq, Structural)]
pub enum KeyFrame {
    Listener { event_type: u64 },
    Context,
}

/// The places of the frames that are equal to one.
pub open spec fn places_of(stack: Seq<KeyFrame>, frame: KeyFrame) -> Seq<usize>
    decreases stack.len(),
{
    if stack.len() == 0 {
        Seq::empty()
    } else if stack.last() == frame {
        places_of(stack.drop_last(), frame).push((stack.len() - 1) as usize)
    } else {
        places_of(stack.drop_last(), frame)
    }
}

fn find_frames(stack: &Vec<KeyFrame>, to: usize, frame: KeyFrame) -> (r: Vec<usize>)
    requires
        to <= stack.len(),
    ensures
        r@ == places_of(stack@.take(to as int), frame),
{
    let mut r: Vec<usize> = Vec::new();
    let mut i: usize = 0;
    while i < to
        invariant
            i <= to <= stack.len(),
            r@ == places_of(stack@.take(i as int), frame),
        decreases to - i,
    {
        assert(stack@.take(i + 1).drop_last() =~= stack@.take(i as int));
        if stack[i] == frame {
            r.push(i);
        }
        i += 1;
    }
    r
}

/// The stack through which key events go. Once it is frozen, it stays as it is until the next frame.
pub struct KeyStack {
    stack: Vec<KeyFrame>,
    frozen: bool,
}

/// The meaning of the stack.
#[verifier::ext_equal]
pub struct KeyStackView {
    pub stack: Seq<KeyFrame>,
    pub frozen: bool,
}

impl View for KeyStack {
    type V = KeyStackView;

    closed spec fn view(&self) -> KeyStackView {
        KeyStackView { stack: self.stack@, frozen: self.frozen }
    }
}

/// The frames of listeners for some types of events.
pub open spec fn listener_frames(event_types: Seq<u64>) -> Seq<KeyFrame> {
    event_types.map_values(|t: u64| KeyFrame::Listener { event_type: t })
}

impl KeyStack {
    /// An empty stack.
    pub fn new() -> (r: KeyStack)
        ensures
            r@ == (KeyStackView { stack: Seq::empty(), frozen: false }),
    {
        KeyStack { stack: Vec::new(), frozen: false }
    }

    /// Empties the stack for a new frame.
    pub fn start_frame(&mut self)
        ensures
            final(self)@ == (KeyStackView { stack: Seq::empty(), frozen: false }),
    {
        self.stack = Vec::new();
        self.frozen = false;
    }

    /// Keeps the stack as it is: the element that has the focus has been reached.
    pub fn freeze(&mut self)
        ensures
            final(self)@ == (KeyStackView { frozen: true, ..old(self)@ }),
    {
        self.frozen = true;
    }

    /// Goes into an element with listeners.
    pub fn push_listeners(&mut self, event_types: &Vec<u64>)
        ensures
            final(self)@ == (if old(self)@.frozen {
                old(self)@
            } else {
                KeyStackView {
                    stack: old(self)@.stack + listener_frames(event_types@),
                    ..old(self)@
                }
            }),
    {
        if self.frozen {
            return;
        }
        let mut i: usize = 0;
        let ghost frames = listener_frames(event_types@);
        assert(self.stack@ =~= old(self)@.stack + frames.take(0));
        while i < event_types.len()
            invariant
                i <= event_types.len(),
                frames == listener_frames(event_types@),
                !self.frozen,
                self.stack@ == old(self)@.stack + frames.take(i as int),
            decreases event_types.len() - i,
        {
            self.stack.push(KeyFrame::Listener { event_type: event_types[i] });
            i += 1;
            assert(self.stack@ =~= old(self)@.stack + frames.take(i as int));
        }
        assert(frames.take(i as int) =~= frames);
    }

    /// Goes into an element with a context; one without entries is passed over.
    pub fn push_context(&mut self, is_empty: bool)
        ensures
            final(self)@ == (if is_empty || old(self)@.frozen {
                old(self)@
            } else {
                KeyStackView { stack: old(self)@.stack.push(KeyFrame::Context), ..old(self)@ }
            }),
    {
        if !is_empty && !self.frozen {
            self.stack.push(KeyFrame::Context);
        }
    }

    /// Comes out of an element with a context.
    pub fn pop_context(&mut self, is_empty: bool)
        ensures
            final(self)@ == (if is_empty || old(self)@.frozen || old(self)@.stack.len() == 0 {
                old(self)@
            } else {
                KeyStackView { stack: old(self)@.stack.drop_last(), ..old(self)@ }
            }),
    {
        if !is_empty && !self.frozen {
            let _ = self.stack.pop();
        }
    }

    /// Comes out of an element with so many frames.
    pub fn pop_frames(&mut self, count: usize)
        requires
            !old(self)@.frozen ==> count <= old(self)@.stack.len(),
        ensures
            final(self)@ == (if old(self)@.frozen {
                old(self)@
            } else {
                KeyStackView {
                    stack: old(self)@.stack.take(old(self)@.stack.len() - count),
                    ..old(self)@
                }
            }),
    {
        if !self.frozen {
            let rest: usize = self.stack.len() - count;
            self.stack.truncate(rest);
            assert(self.stack@ =~= old(self)@.stack.take(rest as int));
        }
    }

    /// The listeners for a type of event, the outermost first.
    pub fn listeners(&self, event_type: u64) -> (r: Vec<usize>)
        ensures
            r@ == places_of(self@.stack, KeyFrame::Listener { event_type }),
    {
        assert(self.stack@.take(self.stack@.len() as int) =~= self.stack@);
        find_frames(&self.stack, self.stack.len(), KeyFrame::Listener { event_type })
    }

    /// The listeners for an action that a listener asks for: those further out.
    pub fn action_listeners(&self, action_type: u64, listener: usize) -> (r: Vec<usize>)
        requires
            listener <= self@.stack.len(),
        ensures
            r@ == places_of(
                self@.stack.take(listener as int),
                KeyFrame::Listener { event_type: action_type },
            ),
    {
        find_frames(&self.stack, listener, KeyFrame::Listener { event_type: action_type })
    }

    /// The contexts around a listener, the outermost first.
    pub fn contexts(&self, listener: usize) -> (r: Vec<usize>)
        requires
            listener <= self@.stack.len(),
        ensures
            r@ == places_of(self@.stack.take(listener as int), KeyFrame::Context),
    {
        find_frames(&self.stack, listener, KeyFrame::Context)
    }
}

impl Default for KeyStack {
    fn default() -> (r: Self)
        ensures
            r@ == (KeyStackView { stack: Seq::empty(), frozen: false }),
    {
        KeyStack::new()
    }
}

/// An element that was entered and left leaves the stack as it was, unless the focus is in it.
pub proof fn leaving_undoes_entering(stack: Seq<KeyFrame>, event_types: Seq<u64>)
    ensures
        (stack + listener_frames(event_types)).take(stack.len() as int) == stack,
        (stack + listener_frames(event_types)).len() == stack.len() + event_types.len(),
        stack.push(KeyFrame::Context).drop_last() == stack,
{
    assert(stack.push(KeyFrame::Context).drop_last() =~= stack);
    assert((stack + listener_frames(event_types)).take(stack.len() as int) =~= stack);
}

/// The places of a frame are all those at which it stands, in ascending order.
pub proof fn frames_are_found_where_they_stand(stack: Seq<KeyFrame>, frame: KeyFrame)
    requires
        stack.len() <= usize::MAX,
    ensures
        forall|i: usize|
            #![trigger places_of(stack, frame).contains(i)]
            places_of(stack, frame).contains(i) <==> i < stack.len() && stack[i as int] == frame,
        forall|a: int, b: int|
            0 <= a < b < places_of(stack, frame).len() ==> places_of(stack, frame)[a] < places_of(
                stack,
                frame,
            )[b],
    decreases stack.len(),
{
    if stack.len() > 0 {
        let before = places_of(stack.drop_last(), frame);
        let all = places_of(stack, frame);
        let last = (stack.len() - 1) as usize;
        frames_are_found_where_they_stand(stack.drop_last(), frame);
        assert forall|i: usize|
            #![trigger all.contains(i)]
            all.contains(i) <==> i < stack.len() && stack[i as int] == frame by {
            assert(before.contains(i) <==> i < stack.len() - 1 && stack.drop_last()[i as int]
                == frame);
            if stack.last() == frame {
                if all.contains(i) {
                    let k = choose|k: int| 0 <= k < all.len() && all[k] == i;
                    if k < before.len() {
                        assert(before[k] == i);
                    }
                }
                if before.contains(i) {
                    let k = choose|k: int| 0 <= k < before.len() && before[k] == i;
                    assert(all[k] == i);
                }
                assert(all[before.len() as int] == last);
            }
        }
        if stack.last() == frame {
            assert forall|a: int, b: int| 0 <= a < b < all.len() implies all[a] < all[b] by {
                if b == before.len() {
                    assert(before.contains(before[a]));
                }
            }
        }
    }
}

/// Listeners enter as frames of their kinds of events, in order.
pub proof fn listeners_enter_in_order(event_types: Seq<u64>, i: int)
    requires
        0 <= i < event_types.len(),
    ensures
        listener_frames(event_types).len() == event_types.len(),
        listener_frames(event_types)[i] == (KeyFrame::Listener { event_type: event_types[i] }),
{
}

} // verus!
