//! The state of the application: its models and views with their handles, what is left to be done
//! after an update, who is told of what, and the windows.
//!
//! Models, views and callbacks are known here by their numbers; whoever owns them runs them when a
//! method tells to.
use vstd::prelude::*;
use vstd::std_specs::iter::IteratorSpec;
use std::collections::HashMap;
use crate::app_windows::{
    focused, invalidation_of, replaced, with_removed, with_updated, AppWindows, FocusChange,
    WindowInvalidation, WindowView, WindowsView,
};
use crate::effects::{notified, update_ended, Effect, EffectQueue, FlushStep, QueueView};
use crate::ref_counts::{
    counts_ok, no_repeats, with_element, with_entity, without_entity, CountsView, ElementKey,
    EntityLocation, RefCounts,
};
use crate::subscriptions::{
    ids_of, Subscription, SubscriptionKind, Subscriptions, SubscriptionsView,
};

verus! {

broadcast use vstd::std_specs::hash::group_hash_axioms;

/// The state of the application.
pub struct MutableAppContext {
    models: HashMap<usize, ()>,
    views: HashMap<usize, usize>,
    models_out: HashMap<usize, ()>,
    views_out: HashMap<usize, usize>,
    element_states: Vec<ElementKey>,
    ref_counts: RefCounts,
    next_entity_id: usize,
    effects: EffectQueue,
    subscriptions: Subscriptions,
    windows: AppWindows,
}

/// The meaning of the state. Each view is in a window. A model or a view that somebody works on is
/// out: it is not to be found until it is put back.
#[verifier::ext_equal]
pub struct AppView {
    pub models: Set<usize>,
    pub views: Map<usize, usize>,
    pub models_out: Set<usize>,
    pub views_out: Map<usize, usize>,
    pub element_states: Set<ElementKey>,
    pub counts: CountsView,
    pub next_entity_id: usize,
    pub effects: QueueView,
    pub subscriptions: SubscriptionsView,
    pub windows: WindowsView,
}

impl AppView {
    /// Whether there is such a model or view, and nobody works on it.
    pub open spec fn has(self, location: EntityLocation) -> bool {
        match location {
            EntityLocation::Model(id) => self.models.contains(id),
            EntityLocation::View(window_id, id) => self.views.dom().contains(id) && self.views[id]
                == window_id,
        }
    }

    /// Whether somebody works on a model or a view.
    pub open spec fn out(self, location: EntityLocation) -> bool {
        match location {
            EntityLocation::Model(id) => self.models_out.contains(id),
            EntityLocation::View(window_id, id) => self.views_out.dom().contains(id)
                && self.views_out[id] == window_id,
        }
    }

    /// Whether numbers are given out once, and only what there is can be dropped.
    pub open spec fn ok(self) -> bool {
        &&& counts_ok(self.counts)
        &&& forall|id: usize| #[trigger]
            self.models.contains(id) ==> id < self.next_entity_id && !self.views.dom().contains(id)
                && !self.models_out.contains(id) && !self.views_out.dom().contains(id)
        &&& forall|id: usize| #[trigger]
            self.models_out.contains(id) ==> id < self.next_entity_id && !self.views.dom().contains(
                id,
            ) && !self.views_out.dom().contains(id)
        &&& forall|id: usize| #[trigger]
            self.views.dom().contains(id) ==> id < self.next_entity_id
                && !self.views_out.dom().contains(id)
        &&& forall|id: usize| #[trigger]
            self.views_out.dom().contains(id) ==> id < self.next_entity_id
        &&& forall|id: usize| #[trigger]
            self.counts.entities.dom().contains(id) ==> id < self.next_entity_id
        &&& forall|l: EntityLocation| #[trigger]
            self.counts.dropped_entities.contains(l) ==> self.has(l) || self.out(l)
    }

    /// The state in which somebody works on a model or a view.
    pub open spec fn taken_out(self, location: EntityLocation) -> AppView {
        match location {
            EntityLocation::Model(id) => AppView {
                models: self.models.remove(id),
                models_out: self.models_out.insert(id),
                ..self
            },
            EntityLocation::View(window_id, id) => AppView {
                views: self.views.remove(id),
                views_out: self.views_out.insert(id, window_id),
                ..self
            },
        }
    }

    /// The state in which nobody works on a model or a view any longer.
    pub open spec fn put_back(self, location: EntityLocation) -> AppView {
        match location {
            EntityLocation::Model(id) => AppView {
                models: self.models.insert(id),
                models_out: self.models_out.remove(id),
                ..self
            },
            EntityLocation::View(window_id, id) => AppView {
                views: self.views.insert(id, window_id),
                views_out: self.views_out.remove(id),
                ..self
            },
        }
    }

    /// The state in an update.
    pub open spec fn updating(self) -> AppView {
        AppView {
            effects: QueueView {
                pending_flushes: (self.effects.pending_flushes + 1) as usize,
                ..self.effects
            },
            ..self
        }
    }

    /// The state after an update has ended.
    pub open spec fn updated(self) -> AppView {
        AppView { effects: update_ended(self.effects), ..self }
    }

    /// The state in which a window has to draw a view, if there is the window.
    pub open spec fn to_draw(self, window_id: usize, view_id: usize) -> AppView {
        if self.windows.windows.dom().contains(window_id) {
            AppView {
                windows: replaced(
                    self.windows,
                    window_id,
                    with_updated(self.windows.windows[window_id], view_id),
                ),
                ..self
            }
        } else {
            self
        }
    }

    /// The state with another handle of a model or a view.
    pub open spec fn with_handle(self, location: EntityLocation) -> AppView {
        AppView { counts: with_entity(self.counts, location), ..self }
    }

    /// Whether a window has a handle of its root view.
    pub open spec fn holds_root(self, window_id: usize) -> bool {
        let root = self.windows.windows[window_id].root_view;
        &&& self.has(EntityLocation::View(window_id, root)) || self.out(
            EntityLocation::View(window_id, root),
        )
        &&& self.counts.entities.dom().contains(root)
    }

    /// The state without a window and its handle of the root view.
    pub open spec fn without_window(self, window_id: usize) -> AppView {
        if self.windows.windows.dom().contains(window_id) {
            AppView {
                windows: WindowsView {
                    windows: self.windows.windows.remove(window_id),
                    ..self.windows
                },
                counts: without_entity(
                    self.counts,
                    EntityLocation::View(window_id, self.windows.windows[window_id].root_view),
                ),
                ..self
            }
        } else {
            self
        }
    }

    /// The state without a model or a view, and without those who were told of it.
    pub open spec fn without(self, location: EntityLocation) -> AppView {
        let id = location.id();
        let subscriptions = SubscriptionsView {
            subscriptions: crate::subscriptions::without_entity(
                self.subscriptions.subscriptions,
                id,
            ),
            observations: crate::subscriptions::without_entity(self.subscriptions.observations, id),
            ..self.subscriptions
        };
        match location {
            EntityLocation::Model(_) => AppView {
                models: self.models.remove(id),
                subscriptions,
                ..self
            },
            EntityLocation::View(_, _) => AppView {
                views: self.views.remove(id),
                subscriptions,
                ..self
            },
        }
    }

    /// The state without the observers of an entity.
    pub open spec fn without_observers(self, id: usize) -> AppView {
        AppView {
            subscriptions: SubscriptionsView {
                observations: crate::subscriptions::without_entity(
                    self.subscriptions.observations,
                    id,
                ),
                ..self.subscriptions
            },
            ..self
        }
    }
}

impl View for MutableAppContext {
    type V = AppView;

    closed spec fn view(&self) -> AppView {
        AppView {
            models: self.models@.dom(),
            views: self.views@,
            models_out: self.models_out@.dom(),
            views_out: self.views_out@,
            element_states: self.element_states@.to_set(),
            counts: self.ref_counts@,
            next_entity_id: self.next_entity_id,
            effects: self.effects@,
            subscriptions: self.subscriptions@,
            windows: self.windows@,
        }
    }
}

/// What has lost its last handle.
pub struct Dropped {
    pub models: Vec<usize>,
    pub views: Vec<(usize, usize)>,
    pub element_states: Vec<ElementKey>,
}

/// Whether a list of entities is the list of these models followed by that of these views.
pub open spec fn parted(
    all: Seq<EntityLocation>,
    models: Seq<usize>,
    views: Seq<(usize, usize)>,
) -> bool {
    &&& forall|id: usize| #[trigger]
        models.contains(id) <==> all.contains(EntityLocation::Model(id))
    &&& forall|v: (usize, usize)| #[trigger]
        views.contains(v) <==> all.contains(EntityLocation::View(v.0, v.1))
}

proof fn lemma_contains_push<T>(list: Seq<T>, x: T)
    ensures
        forall|y: T| #[trigger] list.push(x).contains(y) <==> list.contains(y) || y == x,
{
    assert forall|y: T| #[trigger] list.push(x).contains(y) <==> list.contains(y) || y == x by {
        if list.contains(y) {
            let i = choose|i: int| 0 <= i < list.len() && list[i] == y;
            assert(list.push(x)[i] == y);
        }
        assert(list.push(x)[list.len() as int] == x);
        if list.push(x).contains(y) {
            let i = choose|i: int| 0 <= i < list.push(x).len() && list.push(x)[i] == y;
            if i < list.len() {
                assert(list[i] == y);
            }
        }
    }
}

proof fn lemma_same_entities(before: AppView, after: AppView)
    requires
        before.ok(),
        after.models == before.models,
        after.views == before.views,
        after.models_out == before.models_out,
        after.views_out == before.views_out,
        after.counts == before.counts,
        after.next_entity_id == before.next_entity_id,
    ensures
        after.ok(),
{
    assert forall|l: EntityLocation| #[trigger]
        after.counts.dropped_entities.contains(l) implies after.has(l) || after.out(l) by {
        assert(before.has(l) || before.out(l));
    }
}

proof fn lemma_taken_out(app: AppView, location: EntityLocation)
    requires
        app.ok(),
        app.has(location),
    ensures
        app.taken_out(location).ok(),
{
    let after = app.taken_out(location);
    assert forall|l: EntityLocation| #[trigger]
        after.counts.dropped_entities.contains(l) implies after.has(l) || after.out(l) by {
        assert(app.has(l) || app.out(l));
    }
}

proof fn lemma_put_back(app: AppView, location: EntityLocation)
    requires
        app.ok(),
        app.out(location),
    ensures
        app.put_back(location).ok(),
{
    let after = app.put_back(location);
    assert forall|l: EntityLocation| #[trigger]
        after.counts.dropped_entities.contains(l) implies after.has(l) || after.out(l) by {
        assert(app.has(l) || app.out(l));
    }
}

/// Whether a view is the root of one of these windows.
pub open spec fn is_root(app: AppView, windows: Set<usize>, id: usize) -> bool {
    exists|w: usize| #[trigger]
        windows.contains(w) && app.windows.windows[w].root_view == id
}

/// Whether these are the counts after each of these windows has let go of its root view: one handle
/// of each root goes, and the roots without another handle are dropped.
pub open spec fn roots_let_go(app: AppView, counts: CountsView, windows: Set<usize>) -> bool {
    &&& counts.elements == app.counts.elements
    &&& counts.dropped_elements == app.counts.dropped_elements
    &&& forall|id: usize| #[trigger]
        counts.entities.dom().contains(id) <==> app.counts.entities.dom().contains(id) && !(is_root(
            app,
            windows,
            id,
        ) && app.counts.entities[id] == 1)
    &&& forall|id: usize| #[trigger]
        counts.entities.dom().contains(id) ==> counts.entities[id] == app.counts.entities[id] - (
        if is_root(app, windows, id) {
            1int
        } else {
            0
        })
    &&& forall|l: EntityLocation| #[trigger]
        counts.dropped_entities.contains(l) <==> app.counts.dropped_entities.contains(l) || (
        l matches EntityLocation::View(w, id) && windows.contains(w)
            && app.windows.windows[w].root_view == id && app.counts.entities[id] == 1)
}

proof fn lemma_other_root(app: AppView, counts: CountsView, done: Set<usize>, window_id: usize)
    requires
        app.ok(),
        app.holds_root(window_id),
        !done.contains(window_id),
        forall|w: usize| #[trigger] done.contains(w) ==> app.holds_root(w),
        roots_let_go(app, counts, done),
    ensures
        counts.entities.dom().contains(app.windows.windows[window_id].root_view),
        roots_let_go(
            app,
            without_entity(
                counts,
                EntityLocation::View(window_id, app.windows.windows[window_id].root_view),
            ),
            done.insert(window_id),
        ),
{
    let root = app.windows.windows[window_id].root_view;
    let next = done.insert(window_id);
    assert(!is_root(app, done, root)) by {
        if is_root(app, done, root) {
            let w = choose|w: usize| #[trigger]
                done.contains(w) && app.windows.windows[w].root_view == root;
            assert(app.holds_root(w));
        }
    }
    assert(next.contains(window_id));
    assert forall|id: usize| #[trigger] is_root(app, next, id) <==> is_root(app, done, id) || id
        == root by {
        if is_root(app, done, id) {
            let w = choose|w: usize| #[trigger]
                done.contains(w) && app.windows.windows[w].root_view == id;
            assert(next.contains(w));
        }
        if is_root(app, next, id) && id != root {
            let w = choose|w: usize| #[trigger]
                next.contains(w) && app.windows.windows[w].root_view == id;
            assert(done.contains(w));
        }
    }
    let after = without_entity(counts, EntityLocation::View(window_id, root));
    assert(counts.entities.dom().contains(root));
    assert(counts.entities[root] == app.counts.entities[root]);
    assert forall|id: usize| #[trigger]
        after.entities.dom().contains(id) <==> app.counts.entities.dom().contains(id) && !(is_root(
            app,
            next,
            id,
        ) && app.counts.entities[id] == 1) by {
        assert(counts.entities.dom().contains(id) <==> app.counts.entities.dom().contains(id)
            && !(is_root(app, done, id) && app.counts.entities[id] == 1));
    }
    assert forall|id: usize| #[trigger]
        after.entities.dom().contains(id) implies after.entities[id] == app.counts.entities[id] - (
    if is_root(app, next, id) {
        1int
    } else {
        0
    }) by {
        assert(counts.entities.dom().contains(id));
    }
    assert forall|l: EntityLocation| #[trigger]
        after.dropped_entities.contains(l) <==> app.counts.dropped_entities.contains(l) || (
        l matches EntityLocation::View(w, id) && next.contains(w)
            && app.windows.windows[w].root_view == id && app.counts.entities[id] == 1) by {
        assert(counts.dropped_entities.contains(l) <==> app.counts.dropped_entities.contains(l) || (
        l matches EntityLocation::View(w, id) && done.contains(w)
            && app.windows.windows[w].root_view == id && app.counts.entities[id] == 1));
    }
}

fn part(all: &Vec<EntityLocation>) -> (r: (Vec<usize>, Vec<(usize, usize)>))
    requires
        no_repeats(all@),
    ensures
        parted(all@, r.0@, r.1@),
        no_repeats(r.0@),
        no_repeats(r.1@),
{
    let mut models: Vec<usize> = Vec::new();
    let mut views: Vec<(usize, usize)> = Vec::new();
    let mut i: usize = 0;
    while i < all.len()
        invariant
            i <= all.len(),
            no_repeats(all@),
            parted(all@.take(i as int), models@, views@),
            no_repeats(models@),
            no_repeats(views@),
        decreases all.len() - i,
    {
        let ghost seen = all@.take(i as int);
        assert(all@.take(i + 1) =~= seen.push(all@[i as int]));
        proof {
            lemma_contains_push(seen, all@[i as int]);
            assert(!seen.contains(all@[i as int]));
        }
        match all[i] {
            EntityLocation::Model(id) => {
                let ghost before = models@;
                models.push(id);
                proof {
                    lemma_contains_push(before, id);
                    assert(!before.contains(id));
                }
            },
            EntityLocation::View(window_id, id) => {
                let ghost before = views@;
                views.push((window_id, id));
                proof {
                    lemma_contains_push(before, (window_id, id));
                    assert(!before.contains((window_id, id)));
                }
            },
        }
        i += 1;
    }
    assert(all@.take(i as int) =~= all@);
    (models, views)
}

impl MutableAppContext {
    /// Whether the state makes sense.
    pub closed spec fn wf(&self) -> bool {
        &&& self.ref_counts.wf()
        &&& no_repeats(self.element_states@)
        &&& self@.ok()
    }

    /// A state that makes sense gives out each number once, and drops only what there is.
    pub proof fn wf_is_ok(&self)
        requires
            self.wf(),
        ensures
            self@.ok(),
    {
    }

    /// An application without anything.
    pub fn new() -> (r: MutableAppContext)
        ensures
            r.wf(),
            r@.models == Set::<usize>::empty(),
            r@.views == Map::<usize, usize>::empty(),
            r@.models_out == Set::<usize>::empty(),
            r@.views_out == Map::<usize, usize>::empty(),
            r@.element_states == Set::<ElementKey>::empty(),
            r@.counts == (CountsView {
                entities: Map::empty(),
                elements: Map::empty(),
                dropped_entities: Set::empty(),
                dropped_elements: Set::empty(),
            }),
            r@.next_entity_id == 0,
            r@.effects == (QueueView {
                effects: Seq::empty(),
                notified: Set::empty(),
                pending_flushes: 0,
                flushing: false,
                refreshing: false,
            }),
            r@.subscriptions == (SubscriptionsView {
                next_id: 0,
                subscriptions: Set::empty(),
                observations: Set::empty(),
            }),
            r@.windows == (WindowsView { windows: Map::empty(), next_window_id: 0 }),
    {
        let r = MutableAppContext {
            models: HashMap::new(),
            views: HashMap::new(),
            models_out: HashMap::new(),
            views_out: HashMap::new(),
            element_states: Vec::new(),
            ref_counts: RefCounts::new(),
            next_entity_id: 0,
            effects: EffectQueue::new(),
            subscriptions: Subscriptions::new(),
            windows: AppWindows::new(),
        };
        assert(r@.models =~= Set::empty());
        assert(r@.views =~= Map::empty());
        assert(r@.models_out =~= Set::empty());
        assert(r@.views_out =~= Map::empty());
        assert(r@.element_states =~= Set::empty());
        r
    }

    /// Takes out a model or a view to work on it, unless it is out or gone.
    pub fn take_out(&mut self, location: EntityLocation) -> (r: bool)
        requires
            old(self).wf(),
        ensures
            final(self).wf(),
            r == old(self)@.has(location),
            final(self)@ == (if r {
                old(self)@.taken_out(location)
            } else {
                old(self)@
            }),
    {
        match location {
            EntityLocation::Model(id) => {
                if !self.has_model(id) {
                    return false;
                }
                self.models.remove(&id);
                self.models_out.insert(id, ());
            },
            EntityLocation::View(window_id, id) => {
                if !self.has_view(window_id, id) {
                    return false;
                }
                self.views.remove(&id);
                self.views_out.insert(id, window_id);
            },
        }
        proof {
            assert(self@ =~= old(self)@.taken_out(location));
            lemma_taken_out(old(self)@, location);
        }
        true
    }

    /// Puts back what was taken out.
    pub fn put_back(&mut self, location: EntityLocation)
        requires
            old(self).wf(),
            old(self)@.out(location),
        ensures
            final(self).wf(),
            final(self)@ == old(self)@.put_back(location),
    {
        match location {
            EntityLocation::Model(id) => {
                self.models_out.remove(&id);
                self.models.insert(id, ());
            },
            EntityLocation::View(window_id, id) => {
                self.views_out.remove(&id);
                self.views.insert(id, window_id);
            },
        }
        proof {
            assert(self@ =~= old(self)@.put_back(location));
            lemma_put_back(old(self)@, location);
        }
    }

    /// Begins an update of a model or a view. That fails if the entity is out: an entity cannot be
    /// updated within its own update.
    pub fn begin_update(&mut self, location: EntityLocation) -> (r: bool)
        requires
            old(self).wf(),
            old(self)@.effects.pending_flushes < usize::MAX,
        ensures
            final(self).wf(),
            r == old(self)@.has(location),
            final(self)@ == (if r {
                old(self)@.taken_out(location).updating()
            } else {
                old(self)@
            }),
    {
        if !self.take_out(location) {
            return false;
        }
        let ghost taken = self@;
        self.effects.begin_update();
        proof {
            lemma_same_entities(taken, self@);
        }
        true
    }

    /// Ends an update of a model or a view; tells whether the effects are to be flushed now.
    pub fn end_update(&mut self, location: EntityLocation) -> (flush: bool)
        requires
            old(self).wf(),
            old(self)@.out(location),
        ensures
            final(self).wf(),
            final(self)@ == old(self)@.put_back(location).updated(),
            flush == (final(self)@.effects.flushing && !old(self)@.effects.flushing),
    {
        self.put_back(location);
        let ghost back = self@;
        let flush: bool = self.effects.end_update();
        proof {
            lemma_same_entities(back, self@);
        }
        flush
    }

    /// Begins to add a model, which has one handle from now on.
    pub fn begin_model(&mut self) -> (id: usize)
        requires
            old(self).wf(),
            old(self)@.next_entity_id < usize::MAX,
            old(self)@.effects.pending_flushes < usize::MAX,
        ensures
            final(self).wf(),
            id == old(self)@.next_entity_id,
            final(self)@ == (AppView {
                models_out: old(self)@.models_out.insert(id),
                next_entity_id: (id + 1) as usize,
                ..old(self)@.with_handle(EntityLocation::Model(id)).updating()
            }),
    {
        let id: usize = self.next_entity_id;
        let location: EntityLocation = EntityLocation::Model(id);
        self.next_entity_id = id + 1;
        self.effects.begin_update();
        self.ref_counts.inc_entity(location);
        self.models_out.insert(id, ());
        proof {
            self.ref_counts.wf_is_ok();
            let expected = AppView {
                models_out: old(self)@.models_out.insert(id),
                next_entity_id: (id + 1) as usize,
                ..old(self)@.with_handle(location).updating()
            };
            assert(self@ =~= expected);
            let before = old(self)@;
            assert forall|l: EntityLocation| #[trigger]
                self@.counts.dropped_entities.contains(l) implies self@.has(l) || self@.out(l) by {
                assert(before.has(l) || before.out(l));
            }
        }
        id
    }

    /// A model has been built and is to be found from now on; tells whether the effects are to be
    /// flushed now.
    pub fn add_model(&mut self, model_id: usize) -> (flush: bool)
        requires
            old(self).wf(),
            old(self)@.models_out.contains(model_id),
        ensures
            final(self).wf(),
            final(self)@ == old(self)@.put_back(EntityLocation::Model(model_id)).updated(),
            flush == (final(self)@.effects.flushing && !old(self)@.effects.flushing),
    {
        self.end_update(EntityLocation::Model(model_id))
    }

    /// Begins to add a view to a window.
    pub fn begin_view(&mut self, window_id: usize) -> (id: usize)
        requires
            old(self).wf(),
            old(self)@.next_entity_id < usize::MAX,
            old(self)@.effects.pending_flushes < usize::MAX,
        ensures
            final(self).wf(),
            id == old(self)@.next_entity_id,
            final(self)@ == (AppView {
                views_out: old(self)@.views_out.insert(id, window_id),
                next_entity_id: (id + 1) as usize,
                ..old(self)@.updating()
            }),
    {
        let id: usize = self.next_entity_id;
        self.next_entity_id = id + 1;
        self.effects.begin_update();
        self.views_out.insert(id, window_id);
        proof {
            let before = old(self)@;
            assert(self@ =~= AppView {
                views_out: before.views_out.insert(id, window_id),
                next_entity_id: (id + 1) as usize,
                ..before.updating()
            });
            assert forall|l: EntityLocation| #[trigger]
                self@.counts.dropped_entities.contains(l) implies self@.has(l) || self@.out(l) by {
                assert(before.has(l) || before.out(l));
            }
        }
        id
    }

    /// A view has been built, with one more handle, and is to be found from now on; or it has not.
    /// The window has to draw the view. Tells whether the effects are to be flushed now.
    pub fn add_option_view(&mut self, window_id: usize, view_id: usize, built: bool) -> (flush: bool)
        requires
            old(self).wf(),
            old(self)@.out(EntityLocation::View(window_id, view_id)),
            old(self)@.counts.entities.dom().contains(view_id)
                ==> old(self)@.counts.entities[view_id] < usize::MAX,
            !built ==> !old(self)@.counts.dropped_entities.contains(
                EntityLocation::View(window_id, view_id),
            ),
        ensures
            final(self).wf(),
            final(self)@ == (if built {
                old(self)@.put_back(EntityLocation::View(window_id, view_id)).to_draw(
                    window_id,
                    view_id,
                ).with_handle(EntityLocation::View(window_id, view_id)).updated()
            } else {
                AppView { views_out: old(self)@.views_out.remove(view_id), ..old(self)@ }.updated()
            }),
            flush == (final(self)@.effects.flushing && !old(self)@.effects.flushing),
    {
        let location: EntityLocation = EntityLocation::View(window_id, view_id);
        if built {
            self.put_back(location);
            let ghost back = self@;
            self.windows.view_updated(window_id, view_id);
            assert(self@ =~= back.to_draw(window_id, view_id));
            self.ref_counts.inc_entity(location);
            proof {
                self.ref_counts.wf_is_ok();
                assert forall|l: EntityLocation| #[trigger]
                    self@.counts.dropped_entities.contains(l) implies self@.has(l) || self@.out(
                    l,
                ) by {
                    assert(back.has(l) || back.out(l));
                }
                assert forall|id: usize| #[trigger]
                    self@.counts.entities.dom().contains(id) implies id < self@.next_entity_id by {
                    assert(id == view_id || back.counts.entities.dom().contains(id));
                    assert(back.views.dom().contains(view_id));
                }
                assert(self@.ok());
            }
        } else {
            self.views_out.remove(&view_id);
            proof {
                let before = old(self)@;
                assert(self@ =~= AppView {
                    views_out: before.views_out.remove(view_id),
                    ..before
                });
                assert forall|l: EntityLocation| #[trigger]
                    self@.counts.dropped_entities.contains(l) implies self@.has(l) || self@.out(
                    l,
                ) by {
                    assert(before.has(l) || before.out(l));
                }
                assert(self@.ok());
            }
        }
        let ghost done = self@;
        let flush: bool = self.effects.end_update();
        proof {
            lemma_same_entities(done, self@);
        }
        flush
    }

    /// Whether there is such a model, and nobody works on it.
    pub fn has_model(&self, model_id: usize) -> (r: bool)
        ensures
            r == self@.models.contains(model_id),
    {
        self.models.contains_key(&model_id)
    }

    /// Whether there is such a view in a window, and nobody works on it.
    pub fn has_view(&self, window_id: usize, view_id: usize) -> (r: bool)
        ensures
            r == self@.has(EntityLocation::View(window_id, view_id)),
    {
        match self.views.get(&view_id) {
            Some(window) => *window == window_id,
            None => false,
        }
    }

    /// Makes a handle from a weak one, if the entity still exists and is not out.
    pub fn upgrade(&mut self, location: EntityLocation) -> (r: bool)
        requires
            old(self).wf(),
            old(self)@.counts.entities.dom().contains(location.id())
                ==> old(self)@.counts.entities[location.id()] < usize::MAX,
        ensures
            final(self).wf(),
            r == old(self)@.has(location),
            final(self)@ == (if r {
                old(self)@.with_handle(location)
            } else {
                old(self)@
            }),
    {
        let exists: bool = match location {
            EntityLocation::Model(id) => self.has_model(id),
            EntityLocation::View(window_id, id) => self.has_view(window_id, id),
        };
        if exists {
            self.ref_counts.inc_entity(location);
            proof {
                self.ref_counts.wf_is_ok();
                let before = old(self)@;
                assert(location.id() < before.next_entity_id);
                assert forall|l: EntityLocation| #[trigger]
                    self@.counts.dropped_entities.contains(l) implies self@.has(l) || self@.out(
                    l,
                ) by {
                    assert(before.counts.dropped_entities.contains(l));
                    assert(before.has(l) || before.out(l));
                }
                assert forall|id: usize| #[trigger]
                    self@.counts.entities.dom().contains(id) implies id < self@.next_entity_id by {
                    assert(id == location.id() || before.counts.entities.dom().contains(id));
                }
                assert(self@.models == before.models && self@.views == before.views);
                assert(self@.models_out == before.models_out && self@.views_out
                    == before.views_out);
            }
        }
        exists
    }

    /// A handle goes. With the last one the entity is dropped, to be removed with all that was
    /// dropped.
    pub fn drop_handle(&mut self, location: EntityLocation)
        requires
            old(self).wf(),
            old(self)@.has(location) || old(self)@.out(location),
            old(self)@.counts.entities.dom().contains(location.id()),
        ensures
            final(self).wf(),
            final(self)@ == (AppView {
                counts: without_entity(old(self)@.counts, location),
                ..old(self)@
            }),
    {
        self.ref_counts.dec_entity(location);
        proof {
            self.ref_counts.wf_is_ok();
        }
    }

    /// Adds a window with a root view, which has the focus and one more handle.
    pub fn add_window(&mut self, window_id: usize, root_view: usize)
        requires
            old(self).wf(),
            old(self)@.has(EntityLocation::View(window_id, root_view)),
            old(self)@.counts.entities.dom().contains(root_view)
                ==> old(self)@.counts.entities[root_view] < usize::MAX,
        ensures
            final(self).wf(),
            final(self)@ == (AppView {
                windows: replaced(
                    old(self)@.windows,
                    window_id,
                    WindowView { root_view, focused_view_id: root_view, invalidation: None },
                ),
                ..old(self)@.with_handle(EntityLocation::View(window_id, root_view))
            }),
    {
        self.upgrade(EntityLocation::View(window_id, root_view));
        let ghost held = self@;
        self.windows.add_window(window_id, root_view);
        proof {
            lemma_same_entities(held, self@);
        }
    }

    /// Removes a window, if there is one, with its handle of the root view.
    pub fn remove_window(&mut self, window_id: usize)
        requires
            old(self).wf(),
            old(self)@.windows.windows.dom().contains(window_id) ==> old(self)@.holds_root(
                window_id,
            ),
        ensures
            final(self).wf(),
            final(self)@ == old(self)@.without_window(window_id),
    {
        match self.windows.root_view_id(window_id) {
            Some(root_view) => {
                self.drop_handle(EntityLocation::View(window_id, root_view));
                let ghost dropped = self@;
                self.windows.remove_window(window_id);
                proof {
                    lemma_same_entities(dropped, self@);
                }
            },
            None => {},
        }
    }

    /// Removes all windows with their handles of the root views.
    pub fn remove_all_windows(&mut self)
        requires
            old(self).wf(),
            forall|w: usize| #[trigger]
                old(self)@.windows.windows.dom().contains(w) ==> old(self)@.holds_root(w),
        ensures
            final(self).wf(),
            final(self)@.windows.windows == Map::<usize, WindowView>::empty(),
            final(self)@ == (AppView {
                windows: final(self)@.windows,
                counts: final(self)@.counts,
                ..old(self)@
            }),
            final(self)@.windows.next_window_id == old(self)@.windows.next_window_id,
            roots_let_go(old(self)@, final(self)@.counts, old(self)@.windows.windows.dom()),
    {
        let ids: Vec<usize> = self.windows.window_ids();
        let ghost before = self@;
        let mut i: usize = 0;
        assert(ids@.take(0).to_set() =~= Set::empty());
        while i < ids.len()
            invariant
                i <= ids.len(),
                self.wf(),
                before.ok(),
                no_repeats(ids@),
                ids@.to_set() == before.windows.windows.dom(),
                forall|w: usize| #[trigger]
                    before.windows.windows.dom().contains(w) ==> before.holds_root(w),
                self@ == (AppView { windows: self@.windows, counts: self@.counts, ..before }),
                self@.windows.next_window_id == before.windows.next_window_id,
                self@.windows.windows == before.windows.windows.remove_keys(
                    ids@.take(i as int).to_set(),
                ),
                roots_let_go(before, self@.counts, ids@.take(i as int).to_set()),
            decreases ids.len() - i,
        {
            let ghost done = ids@.take(i as int).to_set();
            let ghost counts = self@.counts;
            let ghost id = ids@[i as int];
            proof {
                assert(ids@.contains(id));
                assert(ids@.to_set().contains(id));
                assert(!done.contains(id)) by {
                    if ids@.take(i as int).contains(id) {
                        let k = choose|k: int| 0 <= k < i && ids@.take(i as int)[k] == id;
                        assert(ids@[k] == ids@[i as int]);
                    }
                }
                assert(before.holds_root(id));
                assert(self@.windows.windows[id] == before.windows.windows[id]);
                assert forall|w: usize| #[trigger] done.contains(w) implies before.holds_root(w) by {
                    assert(ids@.take(i as int).contains(w));
                    let k = choose|k: int| 0 <= k < i && ids@.take(i as int)[k] == w;
                    assert(ids@[k] == w);
                    assert(ids@.to_set().contains(w));
                }
                lemma_other_root(before, counts, done, id);
            }
            self.remove_window(ids[i]);
            proof {
                assert(ids@.take(i + 1) =~= ids@.take(i as int).push(id));
                lemma_contains_push(ids@.take(i as int), id);
                assert(ids@.take(i + 1).to_set() =~= done.insert(id));
                assert(self@.windows.windows =~= before.windows.windows.remove_keys(
                    done.insert(id),
                ));
            }
            i += 1;
        }
        assert(ids@.take(i as int) =~= ids@);
        assert(self@.windows.windows =~= Map::empty());
    }

    /// The views of a window that nobody works on, in no order.
    pub fn window_views(&self, window_id: usize) -> (r: Vec<usize>)
        ensures
            forall|id: usize| #[trigger]
                r@.contains(id) <==> self@.has(EntityLocation::View(window_id, id)),
            no_repeats(r@),
    {
        let mut r: Vec<usize> = Vec::new();
        for id in iter: self.views.keys()
            invariant
                iter.seq().unref().to_set() == self.views@.dom(),
                iter.seq().no_duplicates(),
                forall|id: usize| #[trigger]
                    r@.contains(id) <==> iter.seq().unref().take(iter.index() as int).contains(id)
                        && self.views@[id] == window_id,
                no_repeats(r@),
        {
            let ghost all = iter.seq().unref();
            let ghost i = iter.index() as int;
            let ghost before = r@;
            proof {
                assert(all.take(i + 1) =~= all.take(i).push(*id));
                lemma_contains_push(all.take(i), *id);
                lemma_contains_push(before, *id);
                assert(all.contains(all[i]));
                assert(all.to_set().contains(*id));
                assert(!all.take(i).contains(*id)) by {
                    if all.take(i).contains(*id) {
                        let k = choose|k: int| 0 <= k < i && all.take(i)[k] == *id;
                        assert(iter.seq()[k] == iter.seq()[i]);
                    }
                }
            }
            if self.has_view(window_id, *id) {
                r.push(*id);
                assert(!before.contains(*id));
            }
        }
        assert forall|id: usize| #[trigger]
            r@.contains(id) <==> self@.has(EntityLocation::View(window_id, id)) by {
            let all = self.views.keys().remaining().unref();
            assert(all.take(all.len() as int) =~= all);
            assert(all.to_set().contains(id) <==> all.contains(id));
        }
        r
    }

    /// The state of an element is kept from now on, with one more handle.
    pub fn element_state(&mut self, key: ElementKey)
        requires
            old(self).wf(),
            old(self)@.counts.elements.dom().contains(key)
                ==> old(self)@.counts.elements[key] < usize::MAX,
        ensures
            final(self).wf(),
            final(self)@ == (AppView {
                element_states: old(self)@.element_states.insert(key),
                counts: with_element(old(self)@.counts, key),
                ..old(self)@
            }),
    {
        let mut i: usize = 0;
        let ghost list = self.element_states@;
        while i < self.element_states.len() && self.element_states[i] != key
            invariant
                *self == *old(self),
                list == self.element_states@,
                i <= list.len(),
                forall|k: int| 0 <= k < i ==> list[k] != key,
            decreases list.len() - i,
        {
            i += 1;
        }
        if i == self.element_states.len() {
            self.element_states.push(key);
            proof {
                lemma_contains_push(list, key);
                assert(self.element_states@.to_set() =~= list.to_set().insert(key));
            }
        } else {
            assert(list[i as int] == key);
            assert(list.to_set().insert(key) =~= list.to_set());
        }
        self.ref_counts.inc_element_state(key);
        proof {
            self.ref_counts.wf_is_ok();
        }
    }

    /// The state of an element is kept no longer.
    pub fn remove_element_state(&mut self, key: ElementKey)
        requires
            old(self).wf(),
        ensures
            final(self).wf(),
            final(self)@ == (AppView {
                element_states: old(self)@.element_states.remove(key),
                ..old(self)@
            }),
    {
        let mut i: usize = 0;
        let ghost list = self.element_states@;
        while i < self.element_states.len() && self.element_states[i] != key
            invariant
                *self == *old(self),
                list == self.element_states@,
                i <= list.len(),
                forall|k: int| 0 <= k < i ==> list[k] != key,
            decreases list.len() - i,
        {
            i += 1;
        }
        if i < self.element_states.len() {
            self.element_states.remove(i);
            proof {
                let now = self.element_states@;
                assert(now =~= list.remove(i as int));
                assert forall|k: ElementKey| #[trigger] now.to_set().contains(k)
                    <==> list.to_set().remove(key).contains(k) by {
                    if now.contains(k) {
                        let j = choose|j: int| 0 <= j < now.len() && now[j] == k;
                        if j < i {
                            assert(list[j] == k);
                        } else {
                            assert(list[j + 1] == k);
                        }
                    }
                    if list.contains(k) && k != key {
                        let j = choose|j: int| 0 <= j < list.len() && list[j] == k;
                        if j < i {
                            assert(now[j] == k);
                        } else {
                            assert(now[j - 1] == k);
                        }
                    }
                }
                assert(now.to_set() =~= list.to_set().remove(key));
            }
        } else {
            assert(list.to_set().remove(key) =~= list.to_set());
        }
    }

    /// Hands over what was dropped. Models are removed first, each with `release_model`, then the
    /// views, each with `release_view`, then the states of elements; and then whatever was dropped
    /// meanwhile.
    pub fn take_dropped(&mut self) -> (r: Dropped)
        requires
            old(self).wf(),
        ensures
            final(self).wf(),
            no_repeats(r.models@),
            no_repeats(r.views@),
            no_repeats(r.element_states@),
            forall|id: usize| #[trigger]
                r.models@.contains(id) <==> old(self)@.counts.dropped_entities.contains(
                    EntityLocation::Model(id),
                ),
            forall|v: (usize, usize)| #[trigger]
                r.views@.contains(v) <==> old(self)@.counts.dropped_entities.contains(
                    EntityLocation::View(v.0, v.1),
                ),
            r.element_states@.to_set() == old(self)@.counts.dropped_elements,
            forall|id: usize| #[trigger]
                r.models@.contains(id) ==> final(self)@.models.contains(id)
                    || final(self)@.models_out.contains(id),
            forall|v: (usize, usize)| #[trigger]
                r.views@.contains(v) ==> final(self)@.has(EntityLocation::View(v.0, v.1))
                    || final(self)@.out(EntityLocation::View(v.0, v.1)),
            final(self)@ == (AppView {
                counts: CountsView {
                    dropped_entities: Set::empty(),
                    dropped_elements: Set::empty(),
                    ..old(self)@.counts
                },
                ..old(self)@
            }),
    {
        let ghost dropped = self@.counts.dropped_entities;
        let (entities, element_states): (Vec<EntityLocation>, Vec<ElementKey>) =
            self.ref_counts.take_dropped();
        let (models, views): (Vec<usize>, Vec<(usize, usize)>) = part(&entities);
        proof {
            self.ref_counts.wf_is_ok();
            assert forall|l: EntityLocation| #[trigger] dropped.contains(l) <==> entities@.contains(
                l,
            ) by {
                assert(entities@.to_set().contains(l) <==> entities@.contains(l));
            }
            assert forall|id: usize| #[trigger]
                models@.contains(id) <==> dropped.contains(EntityLocation::Model(id)) by {
                assert(entities@.contains(EntityLocation::Model(id)) <==> models@.contains(id));
            }
            assert forall|v: (usize, usize)| #[trigger]
                views@.contains(v) <==> dropped.contains(EntityLocation::View(v.0, v.1)) by {
                assert(entities@.contains(EntityLocation::View(v.0, v.1)) <==> views@.contains(v));
            }
        }
        Dropped { models, views, element_states }
    }

    /// Removes a model with those who were told of it. It is asked to release what it has.
    pub fn release_model(&mut self, model_id: usize)
        requires
            old(self).wf(),
            old(self)@.models.contains(model_id),
            !old(self)@.counts.dropped_entities.contains(EntityLocation::Model(model_id)),
        ensures
            final(self).wf(),
            final(self)@ == old(self)@.without(EntityLocation::Model(model_id)),
    {
        self.subscriptions.remove_entity(model_id);
        self.models.remove(&model_id);
        proof {
            assert(self@ =~= old(self)@.without(EntityLocation::Model(model_id)));
            let before = old(self)@;
            assert forall|l: EntityLocation| #[trigger]
                self@.counts.dropped_entities.contains(l) implies self@.has(l) || self@.out(l) by {
                assert(before.has(l) || before.out(l));
            }
        }
    }

    /// Removes a view with those who were told of it. It is asked to release what it has.
    pub fn release_view(&mut self, window_id: usize, view_id: usize)
        requires
            old(self).wf(),
            old(self)@.has(EntityLocation::View(window_id, view_id)),
            !old(self)@.counts.dropped_entities.contains(EntityLocation::View(window_id, view_id)),
        ensures
            final(self).wf(),
            final(self)@ == old(self)@.without(EntityLocation::View(window_id, view_id)),
    {
        self.subscriptions.remove_entity(view_id);
        self.views.remove(&view_id);
        proof {
            assert(self@ =~= old(self)@.without(EntityLocation::View(window_id, view_id)));
            let before = old(self)@;
            assert forall|l: EntityLocation| #[trigger]
                self@.counts.dropped_entities.contains(l) implies self@.has(l) || self@.out(l) by {
                assert(before.has(l) || before.out(l));
            }
        }
    }

    /// A view has been released: its window no longer draws it, and if it had the focus, the root
    /// view gets it.
    pub fn view_released(&mut self, window_id: usize, view_id: usize) -> (r: Option<FocusChange>)
        requires
            old(self).wf(),
        ensures
            final(self).wf(),
            ({
                let windows = old(self)@.windows;
                let known = windows.windows.dom().contains(window_id);
                let w = windows.windows[window_id];
                let removed = if known {
                    replaced(windows, window_id, with_removed(w, view_id))
                } else {
                    windows
                };
                if known && w.focused_view_id == view_id {
                    let moved = focused(removed, window_id, w.root_view);
                    &&& r == Some(moved.1)
                    &&& final(self)@ == AppView { windows: moved.0, ..old(self)@ }
                } else {
                    &&& r is None
                    &&& final(self)@ == AppView { windows: removed, ..old(self)@ }
                }
            }),
    {
        match self.windows.view_removed(window_id, view_id) {
            Some(root) => Some(self.windows.focus(window_id, root)),
            None => None,
        }
    }

    /// The callbacks to be called for an event of an entity, in the order in which they were added.
    pub fn emit_event(&mut self, entity_id: usize) -> (r: Vec<usize>)
        requires
            old(self).wf(),
        ensures
            final(self).wf(),
            r@.to_set() == ids_of(old(self)@.subscriptions.subscriptions, entity_id),
            forall|i: int, j: int| 0 <= i < j < r@.len() ==> r@[i] < r@[j],
            final(self)@ == (AppView {
                subscriptions: SubscriptionsView {
                    subscriptions: crate::subscriptions::without_entity(
                        old(self)@.subscriptions.subscriptions,
                        entity_id,
                    ),
                    ..old(self)@.subscriptions
                },
                ..old(self)@
            }),
    {
        self.subscriptions.begin_calls(SubscriptionKind::Subscription, entity_id)
    }

    /// The callbacks to be called for a change of a model: none if it is gone.
    pub fn notify_model_observers(&mut self, observed_id: usize) -> (r: Vec<usize>)
        requires
            old(self).wf(),
        ensures
            final(self).wf(),
            r@.to_set() == (if old(self)@.models.contains(observed_id) {
                ids_of(old(self)@.subscriptions.observations, observed_id)
            } else {
                Set::empty()
            }),
            forall|i: int, j: int| 0 <= i < j < r@.len() ==> r@[i] < r@[j],
            final(self)@ == old(self)@.without_observers(observed_id),
    {
        let callbacks: Vec<usize> = self.subscriptions.begin_calls(
            SubscriptionKind::Observation,
            observed_id,
        );
        proof {
            lemma_same_entities(old(self)@, self@);
        }
        if self.has_model(observed_id) {
            callbacks
        } else {
            let none: Vec<usize> = Vec::new();
            assert(none@.to_set() =~= Set::empty());
            none
        }
    }

    /// A view changed: its window has to draw it again. The callbacks to be called for it: none if it
    /// is gone.
    pub fn notify_view_observers(&mut self, window_id: usize, observed_id: usize) -> (r: Vec<usize>)
        requires
            old(self).wf(),
        ensures
            final(self).wf(),
            r@.to_set() == (if old(self)@.has(EntityLocation::View(window_id, observed_id)) {
                ids_of(old(self)@.subscriptions.observations, observed_id)
            } else {
                Set::empty()
            }),
            forall|i: int, j: int| 0 <= i < j < r@.len() ==> r@[i] < r@[j],
            final(self)@ == old(self)@.to_draw(window_id, observed_id).without_observers(observed_id),
    {
        self.windows.view_updated(window_id, observed_id);
        let callbacks: Vec<usize> = self.subscriptions.begin_calls(
            SubscriptionKind::Observation,
            observed_id,
        );
        proof {
            lemma_same_entities(old(self)@, self@);
        }
        if self.has_view(window_id, observed_id) {
            callbacks
        } else {
            let none: Vec<usize> = Vec::new();
            assert(none@.to_set() =~= Set::empty());
            none
        }
    }

    /// Has an effect run after the update.
    pub fn emit(&mut self, effect: Effect)
        requires
            old(self).wf(),
        ensures
            final(self).wf(),
            final(self)@ == (AppView {
                effects: QueueView {
                    effects: old(self)@.effects.effects.push(effect),
                    ..old(self)@.effects
                },
                ..old(self)@
            }),
    {
        self.effects.push(effect);
        proof {
            lemma_same_entities(old(self)@, self@);
        }
    }

    /// Has the observers of a model told that it changed.
    pub fn notify_model(&mut self, model_id: usize)
        requires
            old(self).wf(),
        ensures
            final(self).wf(),
            final(self)@ == (AppView {
                effects: notified(
                    old(self)@.effects,
                    model_id,
                    Effect::ModelNotification { model_id },
                ),
                ..old(self)@
            }),
    {
        self.effects.notify_model(model_id);
        proof {
            lemma_same_entities(old(self)@, self@);
        }
    }

    /// Has the observers of a view told that it changed.
    pub fn notify_view(&mut self, window_id: usize, view_id: usize)
        requires
            old(self).wf(),
        ensures
            final(self).wf(),
            final(self)@ == (AppView {
                effects: notified(
                    old(self)@.effects,
                    view_id,
                    Effect::ViewNotification { window_id, view_id },
                ),
                ..old(self)@
            }),
    {
        self.effects.notify_view(window_id, view_id);
        proof {
            lemma_same_entities(old(self)@, self@);
        }
    }

    /// What is to be done next after an update: the effect that waits longest, or, when none waits,
    /// drawing the windows.
    pub fn next_step(&mut self) -> (r: FlushStep)
        requires
            old(self).wf(),
            old(self)@.effects.flushing,
        ensures
            final(self).wf(),
            ({
                let q = old(self)@.effects;
                if q.effects.len() > 0 {
                    &&& r == FlushStep::Run(q.effects[0])
                    &&& final(self)@ == AppView {
                        effects: QueueView {
                            effects: q.effects.skip(1),
                            refreshing: q.refreshing || q.effects[0] is RefreshWindows,
                            ..q
                        },
                        ..old(self)@
                    }
                } else {
                    &&& r == FlushStep::DrawWindows { refresh: q.refreshing }
                    &&& final(self)@ == old(self)@
                }
            }),
    {
        let r: FlushStep = self.effects.next_step();
        proof {
            lemma_same_entities(old(self)@, self@);
        }
        r
    }

    /// An effect has been run: entities can be notified again.
    pub fn effect_done(&mut self)
        requires
            old(self).wf(),
        ensures
            final(self).wf(),
            final(self)@ == (AppView {
                effects: QueueView { notified: Set::empty(), ..old(self)@.effects },
                ..old(self)@
            }),
    {
        self.effects.effect_done();
        proof {
            lemma_same_entities(old(self)@, self@);
        }
    }

    /// The windows have been drawn: flushing is over, unless that led to other effects.
    pub fn windows_drawn(&mut self) -> (done: bool)
        requires
            old(self).wf(),
            old(self)@.effects.flushing,
        ensures
            final(self).wf(),
            done == (old(self)@.effects.effects.len() == 0),
            final(self)@ == (AppView {
                effects: if done {
                    QueueView { flushing: false, notified: Set::empty(), ..old(self)@.effects }
                } else {
                    QueueView { refreshing: false, ..old(self)@.effects }
                },
                ..old(self)@
            }),
    {
        let done: bool = self.effects.windows_drawn();
        proof {
            lemma_same_entities(old(self)@, self@);
        }
        done
    }

    /// Has somebody told of the events or the changes of an entity.
    pub fn subscribe(&mut self, kind: SubscriptionKind, entity_id: usize) -> (r: Subscription)
        requires
            old(self).wf(),
            old(self)@.subscriptions.next_id < usize::MAX,
        ensures
            final(self).wf(),
            ({
                let s = old(self)@.subscriptions;
                &&& r == Subscription { kind, id: s.next_id, entity_id, detached: false }
                &&& final(self)@ == AppView {
                    subscriptions: SubscriptionsView {
                        next_id: (s.next_id + 1) as usize,
                        ..s.with_table(kind, s.table(kind).insert((entity_id, s.next_id)))
                    },
                    ..old(self)@
                }
            }),
    {
        let r: Subscription = self.subscriptions.subscribe(kind, entity_id);
        proof {
            lemma_same_entities(old(self)@, self@);
        }
        r
    }

    /// Drops a subscription: unless it was detached, nobody is told any more.
    pub fn drop_subscription(&mut self, subscription: &Subscription)
        requires
            old(self).wf(),
        ensures
            final(self).wf(),
            ({
                let s = old(self)@.subscriptions;
                final(self)@ == AppView {
                    subscriptions: if subscription.detached {
                        s
                    } else {
                        s.with_table(
                            subscription.kind,
                            s.table(subscription.kind).remove(
                                (subscription.entity_id, subscription.id),
                            ),
                        )
                    },
                    ..old(self)@
                }
            }),
    {
        self.subscriptions.drop_subscription(subscription);
        proof {
            lemma_same_entities(old(self)@, self@);
        }
    }

    /// Puts a callback back that wants to be called again.
    pub fn keep_callback(&mut self, kind: SubscriptionKind, entity_id: usize, id: usize)
        requires
            old(self).wf(),
        ensures
            final(self).wf(),
            final(self)@ == (AppView {
                subscriptions: old(self)@.subscriptions.with_table(
                    kind,
                    old(self)@.subscriptions.table(kind).insert((entity_id, id)),
                ),
                ..old(self)@
            }),
    {
        self.subscriptions.keep(kind, entity_id, id);
        proof {
            lemma_same_entities(old(self)@, self@);
        }
    }

    /// Numbers a new window.
    pub fn next_window(&mut self) -> (id: usize)
        requires
            old(self).wf(),
            old(self)@.windows.next_window_id < usize::MAX,
        ensures
            final(self).wf(),
            id == old(self)@.windows.next_window_id,
            final(self)@ == (AppView {
                windows: WindowsView {
                    next_window_id: (old(self)@.windows.next_window_id + 1) as usize,
                    ..old(self)@.windows
                },
                ..old(self)@
            }),
    {
        let id: usize = self.windows.next_window();
        proof {
            lemma_same_entities(old(self)@, self@);
        }
        id
    }

    /// The windows there are, in some order.
    pub fn window_ids(&self) -> (r: Vec<usize>)
        ensures
            r@.no_duplicates(),
            r@.to_set() == self@.windows.windows.dom(),
    {
        self.windows.window_ids()
    }

    /// The models that nobody works on, in no order.
    pub fn model_ids(&self) -> (r: Vec<usize>)
        ensures
            r@.no_duplicates(),
            r@.to_set() == self@.models,
    {
        let mut r: Vec<usize> = Vec::new();
        for id in iter: self.models.keys()
            invariant
                r@ == iter.seq().unref().take(iter.index() as int),
        {
            r.push(*id);
        }
        assert(r@ =~= self.models.keys().remaining().unref());
        r
    }

    /// The views that nobody works on, in no order.
    pub fn view_ids(&self) -> (r: Vec<usize>)
        ensures
            r@.no_duplicates(),
            r@.to_set() == self@.views.dom(),
    {
        let mut r: Vec<usize> = Vec::new();
        for id in iter: self.views.keys()
            invariant
                r@ == iter.seq().unref().take(iter.index() as int),
        {
            r.push(*id);
        }
        assert(r@ =~= self.views.keys().remaining().unref());
        r
    }

    /// The root view of a window.
    pub fn root_view_id(&self, window_id: usize) -> (r: Option<usize>)
        ensures
            r == (if self@.windows.windows.dom().contains(window_id) {
                Some(self@.windows.windows[window_id].root_view)
            } else {
                None
            }),
    {
        self.windows.root_view_id(window_id)
    }

    /// The view of a window that has the focus.
    pub fn focused_view_id(&self, window_id: usize) -> (r: Option<usize>)
        ensures
            r == (if self@.windows.windows.dom().contains(window_id) {
                Some(self@.windows.windows[window_id].focused_view_id)
            } else {
                None
            }),
    {
        self.windows.focused_view_id(window_id)
    }

    /// Gives the focus to a view. The view that loses it is told first, then the one that gets it.
    pub fn focus(&mut self, window_id: usize, view_id: usize) -> (r: FocusChange)
        requires
            old(self).wf(),
        ensures
            final(self).wf(),
            r == focused(old(self)@.windows, window_id, view_id).1,
            final(self)@ == (AppView {
                windows: focused(old(self)@.windows, window_id, view_id).0,
                ..old(self)@
            }),
    {
        let r: FocusChange = self.windows.focus(window_id, view_id);
        proof {
            lemma_same_entities(old(self)@, self@);
        }
        r
    }

    /// A window was resized and has to be drawn again.
    pub fn window_resized(&mut self, window_id: usize)
        requires
            old(self).wf(),
        ensures
            final(self).wf(),
            ({
                let windows = old(self)@.windows;
                let w = windows.windows[window_id];
                final(self)@ == AppView {
                    windows: if windows.windows.dom().contains(window_id) {
                        replaced(
                            windows,
                            window_id,
                            WindowView { invalidation: Some(invalidation_of(w)), ..w },
                        )
                    } else {
                        windows
                    },
                    ..old(self)@
                }
            }),
    {
        self.windows.window_resized(window_id);
        proof {
            lemma_same_entities(old(self)@, self@);
        }
    }

    /// Hands over what changed in a window, which then counts as drawn.
    pub fn take_invalidation(&mut self, window_id: usize) -> (r: Option<WindowInvalidation>)
        requires
            old(self).wf(),
        ensures
            final(self).wf(),
            ({
                let windows = old(self)@.windows;
                let w = windows.windows[window_id];
                if windows.windows.dom().contains(window_id) {
                    &&& final(self)@ == AppView {
                        windows: replaced(
                            windows,
                            window_id,
                            WindowView { invalidation: None, ..w },
                        ),
                        ..old(self)@
                    }
                    &&& match w.invalidation {
                        Some(i) => r matches Some(taken) && taken@ == i,
                        None => r is None,
                    }
                } else {
                    &&& r is None
                    &&& final(self)@ == old(self)@
                }
            }),
    {
        let r: Option<WindowInvalidation> = self.windows.take_invalidation(window_id);
        proof {
            lemma_same_entities(old(self)@, self@);
        }
        r
    }
}

impl Default for MutableAppContext {
    fn default() -> (r: Self)
        ensures
            r.wf(),
            r@.next_entity_id == 0,
            r@.models == Set::<usize>::empty(),
            r@.views == Map::<usize, usize>::empty(),
    {
        MutableAppContext::new()
    }
}

/// Whoever has worked on an entity leaves the others as they were.
pub proof fn putting_back_undoes_taking_out(app: AppView, location: EntityLocation)
    requires
        app.ok(),
        app.has(location),
    ensures
        app.taken_out(location).put_back(location) == app,
{
    assert(app.taken_out(location).put_back(location) =~= app);
}

/// An entity is not to be found within its own update.
pub proof fn entity_is_out_in_its_update(app: AppView, location: EntityLocation)
    ensures
        !app.taken_out(location).has(location),
        app.taken_out(location).out(location),
{
}

/// Nobody is told of an entity that was removed.
pub proof fn removed_entity_has_no_callbacks(app: AppView, location: EntityLocation)
    ensures
        !app.without(location).has(location),
        ids_of(app.without(location).subscriptions.subscriptions, location.id()) =~= Set::empty(),
        ids_of(app.without(location).subscriptions.observations, location.id()) =~= Set::empty(),
{
}

/// Whoever observes another entity is told of it as before.
pub proof fn others_keep_their_callbacks(app: AppView, location: EntityLocation, other: usize)
    requires
        other != location.id(),
    ensures
        ids_of(app.without(location).subscriptions.subscriptions, other) =~= ids_of(
            app.subscriptions.subscriptions,
            other,
        ),
        ids_of(app.without(location).subscriptions.observations, other) =~= ids_of(
            app.subscriptions.observations,
            other,
        ),
{
}

/// An entity that is taken out is missing, and one that is put back is there; no other entity moves.
pub proof fn entities_go_out_and_back(app: AppView, location: EntityLocation, other: usize)
    requires
        other != location.id(),
    ensures
        ({
            let out = app.taken_out(location);
            let back = app.put_back(location);
            &&& out.models.contains(other) <==> app.models.contains(other)
            &&& out.models_out.contains(other) <==> app.models_out.contains(other)
            &&& out.views.dom().contains(other) <==> app.views.dom().contains(other)
            &&& out.views_out.dom().contains(other) <==> app.views_out.dom().contains(other)
            &&& back.models.contains(other) <==> app.models.contains(other)
            &&& back.views.dom().contains(other) <==> app.views.dom().contains(other)
            &&& app.views.dom().contains(other) ==> out.views[other] == app.views[other]
                && back.views[other] == app.views[other]
            &&& location is Model ==> out.views == app.views && back.views == app.views
            &&& location is View ==> out.models == app.models && back.models == app.models
            &&& back.has(location)
            &&& !back.out(location)
            &&& out.counts == app.counts && back.counts == app.counts
            &&& out.windows == app.windows && back.windows == app.windows
            &&& out.effects == app.effects && back.effects == app.effects
            &&& out.subscriptions == app.subscriptions && back.subscriptions == app.subscriptions
        }),
{
}

/// Where entities are is read from the lists of models and views.
pub proof fn entities_are_where_they_are_listed(app: AppView, id: usize, window_id: usize)
    ensures
        app.has(EntityLocation::Model(id)) <==> app.models.contains(id),
        app.has(EntityLocation::View(window_id, id)) <==> app.views.dom().contains(id)
            && app.views[id] == window_id,
        app.out(EntityLocation::Model(id)) <==> app.models_out.contains(id),
        app.out(EntityLocation::View(window_id, id)) <==> app.views_out.dom().contains(id)
            && app.views_out[id] == window_id,
{
}

/// A view is to be drawn in its window, if that is open.
pub proof fn views_are_drawn_in_their_window(
    app: AppView,
    window_id: usize,
    view_id: usize,
    other: usize,
)
    ensures
        ({
            let after = app.to_draw(window_id, view_id);
            &&& app.windows.windows.dom().contains(window_id) ==> (
            after.windows.windows[window_id].invalidation matches Some(i) && i.updated.contains(
                view_id,
            ))
            &&& !app.windows.windows.dom().contains(window_id) ==> after == app
            &&& other != window_id && app.windows.windows.dom().contains(other)
                ==> after.windows.windows[other] == app.windows.windows[other]
            &&& after.windows.windows.dom() =~= app.windows.windows.dom()
            &&& after.models == app.models && after.views == app.views
            &&& after.counts == app.counts && after.effects == app.effects
            &&& after.subscriptions == app.subscriptions
        }),
{
}

/// A window that is closed is gone and lets go of its root view; all others stay.
pub proof fn closed_windows_let_go(app: AppView, window_id: usize, other: usize)
    ensures
        ({
            let after = app.without_window(window_id);
            &&& !after.windows.windows.dom().contains(window_id)
            &&& other != window_id ==> (after.windows.windows.dom().contains(other)
                <==> app.windows.windows.dom().contains(other))
            &&& other != window_id && app.windows.windows.dom().contains(other)
                ==> after.windows.windows[other] == app.windows.windows[other]
            &&& app.windows.windows.dom().contains(window_id) ==> after.counts
                == crate::ref_counts::without_entity(
                app.counts,
                EntityLocation::View(window_id, app.windows.windows[window_id].root_view),
            )
            &&& !app.windows.windows.dom().contains(window_id) ==> after == app
            &&& after.models == app.models && after.views == app.views
            &&& after.effects == app.effects && after.subscriptions == app.subscriptions
        }),
{
}

/// An entity that loses its observers keeps its subscribers, and other entities keep both.
pub proof fn observers_go_alone(app: AppView, id: usize, other: usize)
    ensures
        ids_of(app.without_observers(id).subscriptions.observations, id) =~= Set::empty(),
        app.without_observers(id).subscriptions.subscriptions == app.subscriptions.subscriptions,
        other != id ==> ids_of(app.without_observers(id).subscriptions.observations, other)
            =~= ids_of(app.subscriptions.observations, other),
        app.without_observers(id).models == app.models,
        app.without_observers(id).views == app.views,
        app.without_observers(id).counts == app.counts,
{
}

/// An update is counted while it goes on, and touches nothing but the queue.
pub proof fn updates_are_counted(app: AppView)
    requires
        app.effects.pending_flushes < usize::MAX,
    ensures
        app.updating().effects.pending_flushes == app.effects.pending_flushes + 1,
        app.updating().effects.effects == app.effects.effects,
        app.updating().effects.flushing == app.effects.flushing,
        app.updating().updated().effects.pending_flushes == app.effects.pending_flushes,
        app.updating().updated().effects.effects == app.effects.effects,
        app.updating().updated().models == app.models,
        app.updating().updated().views == app.views,
        app.updating().updated().windows == app.windows,
        app.updating().updated().counts == app.counts,
        app.updating().updated().subscriptions == app.subscriptions,
{
}

/// A handle is counted for its entity, and touches nothing but the counts.
pub proof fn handles_touch_the_counts(app: AppView, location: EntityLocation)
    requires
        app.counts.entities.dom().contains(location.id())
            ==> app.counts.entities[location.id()] < usize::MAX,
    ensures
        app.with_handle(location).counts.entities.dom().contains(location.id()),
        app.with_handle(location).counts.entities[location.id()] == 1 + (
        if app.counts.entities.dom().contains(location.id()) {
            app.counts.entities[location.id()] as int
        } else {
            0
        }),
        app.with_handle(location).models == app.models,
        app.with_handle(location).views == app.views,
        app.with_handle(location).windows == app.windows,
        app.with_handle(location).effects == app.effects,
        app.with_handle(location).subscriptions == app.subscriptions,
{
}

/// An entity that is removed leaves all other entities.
pub proof fn other_entities_stay(app: AppView, location: EntityLocation, other: usize)
    requires
        other != location.id(),
    ensures
        app.without(location).models.contains(other) <==> app.models.contains(other),
        app.without(location).views.dom().contains(other) <==> app.views.dom().contains(other),
        app.views.dom().contains(other) ==> app.without(location).views[other] == app.views[other],
        location is Model ==> app.without(location).views == app.views,
        location is View ==> app.without(location).models == app.models,
        app.without(location).windows == app.windows,
        app.without(location).counts == app.counts,
        app.without(location).effects == app.effects,
{
}

/// When no window closes, the counts stay as they are.
pub proof fn no_closed_window_lets_go_of_nothing(app: AppView, counts: CountsView)
    requires
        roots_let_go(app, counts, Set::empty()),
    ensures
        counts.entities =~= app.counts.entities,
        counts.elements == app.counts.elements,
        counts.dropped_entities =~= app.counts.dropped_entities,
        counts.dropped_elements == app.counts.dropped_elements,
{
    assert forall|id: usize| counts.entities.dom().contains(id) implies counts.entities[id]
        == app.counts.entities[id] by {}
    assert forall|id: usize| #[trigger] app.counts.entities.dom().contains(id) implies
        counts.entities.dom().contains(id) by {
        assert(!is_root(app, Set::empty(), id));
    }
}

/// When one window closes, its root view alone is let go of.
pub proof fn closed_window_lets_go_of_its_root(app: AppView, counts: CountsView, w: usize, other: usize)
    requires
        roots_let_go(app, counts, set![w]),
        app.counts.entities.dom().contains(app.windows.windows[w].root_view),
        app.counts.entities[app.windows.windows[w].root_view] > 0,
    ensures
        ({
            let root = app.windows.windows[w].root_view;
            let held = app.counts.entities[root];
            &&& held > 1 ==> counts.entities.dom().contains(root) && counts.entities[root] == held - 1
            &&& held == 1 ==> !counts.entities.dom().contains(root)
                && counts.dropped_entities.contains(EntityLocation::View(w, root))
            &&& other != root && app.counts.entities.dom().contains(other)
                ==> counts.entities.dom().contains(other) && counts.entities[other]
                == app.counts.entities[other]
        }),
{
    let root = app.windows.windows[w].root_view;
    assert(set![w].contains(w));
    assert(is_root(app, set![w], root));
    assert(is_root(app, set![w], other) ==> other == root);
    assert(counts.entities.dom().contains(other) <==> app.counts.entities.dom().contains(other) && !(
    is_root(app, set![w], other) && app.counts.entities[other] == 1));
    assert(counts.entities.dom().contains(root) <==> app.counts.entities[root] != 1);
    assert(counts.dropped_entities.contains(EntityLocation::View(w, root))
        || app.counts.entities[root] != 1);
}

/// Entities are parted into models and the views of windows, without loss.
pub proof fn entities_are_parted(
    all: Seq<EntityLocation>,
    models: Seq<usize>,
    views: Seq<(usize, usize)>,
    id: usize,
    window_id: usize,
)
    requires
        parted(all, models, views),
    ensures
        all.contains(EntityLocation::Model(id)) ==> models.contains(id),
        all.contains(EntityLocation::View(window_id, id)) ==> views.contains((window_id, id)),
        models.contains(id) ==> all.contains(EntityLocation::Model(id)),
        views.contains((window_id, id)) ==> all.contains(EntityLocation::View(window_id, id)),
{
}

} // verus!
