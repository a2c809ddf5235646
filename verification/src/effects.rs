//! What an update of the application leaves to be done when it is over.
use vstd::prelude::*;
use std::collections::HashMap;

verus! {

broadcast use vstd::std_specs::hash::group_hash_axioms;

/// Something that is done after an update.
#[derive(Clone, Copy, Debug, PartialEq, Eq, Structural)]
pub enum Effect {
    Event { entity_id: usize, payload: u64 },
    ModelNotification { model_id: usize },
    ViewNotification { window_id: usize, view_id: usize },
    Focus { window_id: usize, view_id: usize },
    ResizeWindow { window_id: usize },
    RefreshWindows,
}

/// What is to be done next while effects are flushed.
#[derive(Clone, Copy, Debug, PartialEq, Eq, Structural)]
pub enum FlushStep {
    Run(Effect),
    DrawWindows { refresh: bool },
}

/// The effects that wait, the entities that will be told of a change, how many updates are going on,
/// and whether effects are being flushed.
pub struct EffectQueue {
    effects: Vec<Effect>,
    notified: HashMap<usize, ()>,
    pending_flushes: usize,
    flushing: bool,
    refreshing: bool,
}

/// The meaning of that state.
#[verifier::ext_equal]
pub struct QueueView {
    pub effects: Seq<Effect>,
    pub notified: Set<usize>,
    pub pending_flushes: usize,
    pub flushing: bool,
    pub refreshing: bool,
}

impl View for EffectQueue {
    type V = QueueView;

    closed spec fn view(&self) -> QueueView {
        QueueView {
            effects: self.effects@,
            notified: self.notified@.dom(),
            pending_flushes: self.pending_flushes,
            flushing: self.flushing,
            refreshing: self.refreshing,
        }
    }
}

/// The queue with a notification of an entity, unless one waits already.
pub open spec fn notified(q: QueueView, id: usize, effect: Effect) -> QueueView {
    if q.notified.contains(id) {
        q
    } else {
        QueueView { effects: q.effects.push(effect), notified: q.notified.insert(id), ..q }
    }
}

/// The queue after an update has ended. The outermost update begins to flush, unless that is going
/// on.
pub open spec fn update_ended(q: QueueView) -> QueueView {
    let pending = if q.pending_flushes > 0 {
        (q.pending_flushes - 1) as usize
    } else {
        0
    };
    if !q.flushing && pending == 0 {
        QueueView { pending_flushes: 0, flushing: true, refreshing: false, ..q }
    } else {
        QueueView { pending_flushes: pending, ..q }
    }
}

/// An entity that changes more than once in an update is notified once.
pub proof fn repeated_notification_counts_once(q: QueueView, id: usize, effect: Effect)
    ensures
        notified(notified(q, id, effect), id, effect) == notified(q, id, effect),
{
}

/// An update within another one leaves its effects to the outer one.
pub proof fn inner_update_does_not_flush(q: QueueView)
    requires
        q.pending_flushes >= 2,
        !q.flushing,
    ensures
        !update_ended(q).flushing,
        update_ended(q).effects == q.effects,
        update_ended(QueueView { pending_flushes: 1, ..q }).flushing,
{
}

impl EffectQueue {
    /// Nothing waits.
    pub fn new() -> (r: EffectQueue)
        ensures
            r@ == (QueueView {
                effects: Seq::empty(),
                notified: Set::empty(),
                pending_flushes: 0,
                flushing: false,
                refreshing: false,
            }),
    {
        let r = EffectQueue {
            effects: Vec::new(),
            notified: HashMap::new(),
            pending_flushes: 0,
            flushing: false,
            refreshing: false,
        };
        assert(r@.notified =~= Set::empty());
        r
    }

    /// Adds an effect.
    pub fn push(&mut self, effect: Effect)
        ensures
            final(self)@ == (QueueView {
                effects: old(self)@.effects.push(effect),
                ..old(self)@
            }),
    {
        self.effects.push(effect);
        assert(self@ =~= QueueView { effects: old(self)@.effects.push(effect), ..old(self)@ });
    }

    fn notify(&mut self, id: usize, effect: Effect)
        ensures
            final(self)@ == notified(old(self)@, id, effect),
    {
        if !self.notified.contains_key(&id) {
            self.notified.insert(id, ());
            self.effects.push(effect);
        }
        assert(self@ =~= notified(old(self)@, id, effect));
    }

    /// Has the observers of a model told that it changed.
    pub fn notify_model(&mut self, model_id: usize)
        ensures
            final(self)@ == notified(
                old(self)@,
                model_id,
                Effect::ModelNotification { model_id },
            ),
    {
        self.notify(model_id, Effect::ModelNotification { model_id });
    }

    /// Has the observers of a view told that it changed.
    pub fn notify_view(&mut self, window_id: usize, view_id: usize)
        ensures
            final(self)@ == notified(
                old(self)@,
                view_id,
                Effect::ViewNotification { window_id, view_id },
            ),
    {
        self.notify(view_id, Effect::ViewNotification { window_id, view_id });
    }

    /// Begins an update.
    pub fn begin_update(&mut self)
        requires
            old(self)@.pending_flushes < usize::MAX,
        ensures
            final(self)@ == (QueueView {
                pending_flushes: (old(self)@.pending_flushes + 1) as usize,
                ..old(self)@
            }),
    {
        self.pending_flushes = self.pending_flushes + 1;
    }

    /// Ends an update; tells whether the effects are to be flushed now.
    pub fn end_update(&mut self) -> (flush: bool)
        ensures
            final(self)@ == update_ended(old(self)@),
            flush == (final(self)@.flushing && !old(self)@.flushing),
    {
        if self.pending_flushes > 0 {
            self.pending_flushes = self.pending_flushes - 1;
        }
        if !self.flushing && self.pending_flushes == 0 {
            self.flushing = true;
            self.refreshing = false;
            true
        } else {
            false
        }
    }

    /// What is to be done next: the effect that waits longest, or, when none waits, drawing the
    /// windows.
    pub fn next_step(&mut self) -> (r: FlushStep)
        requires
            old(self)@.flushing,
        ensures
            old(self)@.effects.len() > 0 ==> {
                &&& r == FlushStep::Run(old(self)@.effects[0])
                &&& final(self)@ == QueueView {
                    effects: old(self)@.effects.skip(1),
                    refreshing: old(self)@.refreshing || old(self)@.effects[0] is RefreshWindows,
                    ..old(self)@
                }
            },
            old(self)@.effects.len() == 0 ==> {
                &&& r == FlushStep::DrawWindows { refresh: old(self)@.refreshing }
                &&& final(self)@ == old(self)@
            },
    {
        if self.effects.len() > 0 {
            let effect: Effect = self.effects.remove(0);
            match effect {
                Effect::RefreshWindows => {
                    self.refreshing = true;
                },
                _ => {},
            }
            assert(self@.effects =~= old(self)@.effects.skip(1));
            FlushStep::Run(effect)
        } else {
            FlushStep::DrawWindows { refresh: self.refreshing }
        }
    }

    /// An effect has been run: entities can be notified again.
    pub fn effect_done(&mut self)
        ensures
            final(self)@ == (QueueView { notified: Set::empty(), ..old(self)@ }),
    {
        self.notified = HashMap::new();
        assert(self@.notified =~= Set::empty());
    }

    /// The windows have been drawn: flushing is over, unless that led to other effects.
    pub fn windows_drawn(&mut self) -> (done: bool)
        requires
            old(self)@.flushing,
        ensures
            done == (old(self)@.effects.len() == 0),
            final(self)@ == (if done {
                QueueView { flushing: false, notified: Set::empty(), ..old(self)@ }
            } else {
                QueueView { refreshing: false, ..old(self)@ }
            }),
    {
        if self.effects.len() == 0 {
            self.flushing = false;
            self.notified = HashMap::new();
            assert(self@.notified =~= Set::empty());
            true
        } else {
            self.refreshing = false;
            false
        }
    }
}

impl Default for EffectQueue {
    fn default() -> (r: Self)
        ensures
            r@.effects.len() == 0,
            r@.notified == Set::<usize>::empty(),
            r@.pending_flushes == 0,
            !r@.flushing,
            !r@.refreshing,
    {
        EffectQueue::new()
    }
}

/// A cursor style was set with a number; when its handle goes, the arrow comes back if no style was
/// set after it.
pub fn restores_arrow(handle_id: usize, next_handle_id: usize) -> (r: bool)
    ensures
        r == (handle_id + 1 == next_handle_id),
{
    next_handle_id > 0 && handle_id == next_handle_id - 1
}

/// The first notification of an entity is queued behind what waits; all else stays.
pub proof fn first_notification_is_queued(q: QueueView, id: usize, other: usize, effect: Effect)
    requires
        !q.notified.contains(id),
    ensures
        notified(q, id, effect).effects.len() == q.effects.len() + 1,
        notified(q, id, effect).effects.last() == effect,
        notified(q, id, effect).effects.drop_last() == q.effects,
        notified(q, id, effect).notified.contains(other) <==> other == id || q.notified.contains(
            other,
        ),
        notified(q, id, effect).pending_flushes == q.pending_flushes,
        notified(q, id, effect).flushing == q.flushing,
        notified(q, id, effect).refreshing == q.refreshing,
{
}

/// A notification of an entity that will be told changes nothing.
pub proof fn waiting_notification_is_enough(q: QueueView, id: usize, effect: Effect)
    requires
        q.notified.contains(id),
    ensures
        notified(q, id, effect) == q,
{
}

/// Effects are flushed from when the outermost update ends, and only once at a time.
pub proof fn outermost_update_flushes(q: QueueView)
    requires
        q.pending_flushes >= 1,
    ensures
        update_ended(q).flushing <==> q.flushing || q.pending_flushes == 1,
        update_ended(q).pending_flushes == q.pending_flushes - 1,
        update_ended(q).effects == q.effects,
        update_ended(q).notified == q.notified,
        q.flushing ==> update_ended(q).refreshing == q.refreshing,
        !q.flushing && q.pending_flushes == 1 ==> !update_ended(q).refreshing,
{
}

} // verus!
