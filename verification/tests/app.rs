use editor_core::action_dispatch::{
    check_responder_chain, ActionDispatch, ActionTable, DispatchEnd, KeystrokeDispatch, ViewOutcome,
};
use editor_core::app::MutableAppContext;
use editor_core::app_windows::{AppWindows, FocusChange};
use editor_core::condition::{
    condition_timeout, next_timeout, wait_failure, Awaited, Condition, ConditionEvent,
    ConditionState, WaitResult, Watched,
};
use editor_core::context_predicate::Context;
use editor_core::effects::{restores_arrow, Effect, EffectQueue, FlushStep};
use editor_core::keymap::{Action, Binding, Keymap, MatchResult, Matcher};
use editor_core::keystroke::Keystroke;
use editor_core::ref_counts::{ElementKey, ElementStateId, EntityLocation, RefCounts};
use editor_core::subscriptions::{SubscriptionKind, Subscriptions};

const VIEW_A: u64 = 1;
const VIEW_B: u64 = 2;
const ACTION: u64 = 10;
const OTHER_ACTION: u64 = 11;

// The handlers by name: a and b belong to view A, c and d to view B.
const A: usize = 0;
const B: usize = 1;
const C: usize = 2;
const D: usize = 3;

fn dispatch(
    table: &ActionTable,
    path: &Vec<(usize, Option<u64>)>,
    passes_on: &dyn Fn(usize, usize) -> bool,
) -> (Vec<String>, DispatchEnd) {
    let names = ["a", "b", "c", "d"];
    let types: Vec<Option<u64>> = path.iter().map(|(_, view_type)| *view_type).collect();
    let mut called = Vec::new();
    let mut dispatch = ActionDispatch::new(ACTION, types.len());
    while let Some((place, handler)) = dispatch.next_call(table, &types) {
        called.push(format!("{} {}", path[place].0, names[handler]));
        dispatch.answered(!passes_on(path[place].0, handler));
    }
    let end = dispatch.finish(table);
    if let DispatchEnd::Global { .. } = end {
        called.push("global".to_string());
    }
    (called, end)
}

#[test]
fn test_dispatch_action() {
    let mut table = ActionTable::new();
    table.add_global_action(ACTION, 9);
    table.add_action(VIEW_A, ACTION, A);
    table.add_action(VIEW_A, ACTION, B);
    table.add_action(VIEW_B, ACTION, C);
    table.add_action(VIEW_B, ACTION, D);

    // Views 1 and 3 are of type A, views 2 and 4 of type B. All handlers pass the action on, but
    // for handler b of view 1.
    let passes_on = |view: usize, handler: usize| !(view == 1 && handler == B);
    let path = vec![(1, Some(VIEW_A)), (2, Some(VIEW_B)), (3, Some(VIEW_A)), (4, Some(VIEW_B))];
    let (called, end) = dispatch(&table, &path, &passes_on);
    assert_eq!(called, vec!["4 d", "4 c", "3 b", "3 a", "2 d", "2 c", "1 b"]);
    assert_eq!(end, DispatchEnd::Halted);
    assert!(end.handled());

    // Remove view_1, which doesn't propagate the action
    let path = vec![(2, Some(VIEW_B)), (3, Some(VIEW_A)), (4, Some(VIEW_B))];
    let (called, end) = dispatch(&table, &path, &passes_on);
    assert_eq!(called, vec!["4 d", "4 c", "3 b", "3 a", "2 d", "2 c", "global"]);
    assert_eq!(end, DispatchEnd::Global { handler: 9 });
}

#[test]
fn missing_views_are_passed_over() {
    let mut table = ActionTable::default();
    table.add_action(VIEW_A, ACTION, A);
    table.add_action(VIEW_A, OTHER_ACTION, B);
    let path = vec![(1, Some(VIEW_A)), (2, None)];
    let (called, end) = dispatch(&table, &path, &|_, _| true);
    assert_eq!(called, vec!["1 a"]);
    assert_eq!(end, DispatchEnd::Unhandled);
    assert!(!end.handled());
}

#[test]
fn test_dispatch_keystroke() {
    // This keymap's only binding dispatches an action on view 2 because that view will have
    // "a" and "b" in its context, but not "c".
    let action = || Action { name: "action".to_string(), argument: "a".to_string() };
    let mut matcher =
        Matcher::new(Keymap::new(vec![Binding::new("a", action(), Some("a && b && !c"))]));
    let contexts: Vec<Context> = [vec!["a"], vec!["a", "b"], vec!["a", "b", "c"]]
        .iter()
        .map(|names| {
            let mut cx = Context::default();
            for name in names {
                cx.set.insert(name.to_string());
            }
            cx
        })
        .collect();
    let chain = vec![1, 2, 3];
    assert_eq!(check_responder_chain(&chain, &vec![true, true, true]), Ok(()));
    let mut dispatch = KeystrokeDispatch::new(chain.len());
    let mut handled_by = Vec::new();
    while let Some(place) = dispatch.next_view() {
        let matched = matcher.push_keystroke(
            Keystroke::parse("a").unwrap(),
            vec![(chain[place], contexts[place].clone())],
        );
        let outcome = match matched {
            MatchResult::NoMatch => ViewOutcome::NoMatch,
            MatchResult::Pending => ViewOutcome::Pending,
            MatchResult::Match { action, .. } => {
                assert_eq!(action.argument, "a");
                handled_by.push(chain[place]);
                ViewOutcome::Handled
            }
        };
        if dispatch.took(outcome) {
            matcher.clear_pending();
        }
    }
    assert!(dispatch.result());
    assert_eq!(handled_by, vec![2]);
}

#[test]
fn keystroke_may_be_the_beginning_of_something() {
    let mut dispatch = KeystrokeDispatch::new(2);
    assert_eq!(dispatch.next_view(), Some(1));
    assert!(!dispatch.took(ViewOutcome::Pending));
    assert_eq!(dispatch.next_view(), Some(0));
    assert!(!dispatch.took(ViewOutcome::Unhandled));
    assert_eq!(dispatch.next_view(), None);
    assert!(dispatch.result());

    let mut dispatch = KeystrokeDispatch::new(1);
    dispatch.next_view();
    dispatch.took(ViewOutcome::NoMatch);
    assert!(!dispatch.result());
}

#[test]
fn missing_views_refuse_keystrokes() {
    let error = check_responder_chain(&vec![4, 17, 5], &vec![true, false, false]).unwrap_err();
    assert_eq!(error.message(), "View 17 in responder chain does not exist");
}

fn focus(app: &mut MutableAppContext, events: &mut Vec<String>, window: usize, view: usize) {
    let names = ["view 1", "view 2"];
    if let FocusChange::Moved { blurred } = app.focus(window, view) {
        if let Some(blurred) = blurred {
            if app.has_view(window, blurred) {
                events.push(format!("{} blurred", names[blurred]));
            }
        }
        if app.has_view(window, view) {
            events.push(format!("{} focused", names[view]));
        }
    }
}

fn flush(app: &mut MutableAppContext) {
    loop {
        match app.next_step() {
            FlushStep::Run(_) => app.effect_done(),
            FlushStep::DrawWindows { .. } => {
                if app.windows_drawn() {
                    return;
                }
            }
        }
    }
}

fn add_view(app: &mut MutableAppContext, window: usize, built: bool) -> usize {
    let view = app.begin_view(window);
    if app.add_option_view(window, view, built) {
        flush(app);
    }
    view
}

fn add_model(app: &mut MutableAppContext) -> usize {
    let model = app.begin_model();
    if app.add_model(model) {
        flush(app);
    }
    model
}

fn focus_events(app: &MutableAppContext, events: &mut Vec<String>, window: usize) {
    let names = ["view 1", "view 2"];
    if let Some(view) = app.focused_view_id(window) {
        if app.has_view(window, view) {
            events.push(format!("{} focused", names[view]));
        }
    }
}

#[test]
fn test_focus() {
    let mut app = MutableAppContext::new();
    let window = app.next_window();
    let view_1 = add_view(&mut app, window, true);
    app.add_window(window, view_1);
    let mut events: Vec<String> = Vec::new();
    focus_events(&app, &mut events, window);
    let view_2 = add_view(&mut app, window, true);

    focus(&mut app, &mut events, window, view_2);
    focus(&mut app, &mut events, window, view_1);
    focus(&mut app, &mut events, window, view_2);
    app.drop_handle(EntityLocation::View(window, view_2));
    for (window, view) in app.take_dropped().views {
        app.release_view(window, view);
        if let Some(FocusChange::Moved { .. }) = app.view_released(window, view) {
            focus_events(&app, &mut events, window);
        }
    }

    assert_eq!(
        events,
        vec![
            "view 1 focused",
            "view 1 blurred",
            "view 2 focused",
            "view 2 blurred",
            "view 1 focused",
            "view 1 blurred",
            "view 2 focused",
            "view 1 focused",
        ]
    );
}

#[test]
fn running_handlers_are_not_reached() {
    let mut table = ActionTable::new();
    table.add_action(VIEW_A, ACTION, A);
    table.add_action(VIEW_B, ACTION, C);
    table.add_action(VIEW_A, ACTION, B);
    table.add_global_action(ACTION, 9);
    let everything = |_: usize, _: usize| true;
    let path = vec![(1, Some(VIEW_A)), (2, Some(VIEW_B))];
    let all = dispatch(&table, &path, &everything);
    assert_eq!(all.0, vec!["2 c", "1 b", "1 a", "global"]);

    let handlers = table.take_handlers(VIEW_A, ACTION);
    assert_eq!(handlers, vec![B, A]);
    assert_eq!(dispatch(&table, &path, &everything).0, vec!["2 c", "global"]);
    table.add_action(VIEW_A, ACTION, D);
    assert_eq!(dispatch(&table, &path, &everything).0, vec!["2 c", "1 d", "global"]);
    table.put_handlers(VIEW_A, ACTION, &handlers);
    assert_eq!(dispatch(&table, &path, &everything).0, all.0);

    assert_eq!(table.take_global_action(ACTION), Some(9));
    assert_eq!(table.take_global_action(ACTION), None);
    assert_eq!(dispatch(&table, &path, &everything).0, vec!["2 c", "1 b", "1 a"]);
    table.put_global_action(ACTION, 9);
    assert_eq!(dispatch(&table, &path, &everything).0, all.0);
}

#[test]
fn the_focus_stays_where_it_is() {
    let mut windows = AppWindows::new();
    windows.add_window(0, 1);
    assert_eq!(windows.focus(0, 1), FocusChange::Unchanged);
    assert_eq!(windows.focus(77, 1), FocusChange::Moved { blurred: None });
}

#[test]
fn windows_know_what_to_draw() {
    let mut windows = AppWindows::default();
    windows.add_window(3, 8);
    assert_eq!(windows.root_view_id(3), Some(8));
    assert!(windows.take_invalidation(3).is_none());
    windows.view_updated(3, 8);
    windows.view_updated(3, 8);
    windows.view_updated(3, 9);
    assert_eq!(windows.view_removed(3, 9), None);
    let invalidation = windows.take_invalidation(3).unwrap();
    assert!(invalidation.is_updated(8));
    assert_eq!(invalidation.updated(), &vec![8, 9]);
    assert_eq!(invalidation.removed(), &vec![9]);
    windows.window_resized(3);
    assert!(windows.take_invalidation(3).unwrap().updated().is_empty());
    windows.remove_window(3);
    assert_eq!(windows.root_view_id(3), None);
    assert_eq!(windows.focused_view_id(3), None);
}

#[test]
fn effects_are_flushed_by_the_outermost_update() {
    let mut queue = EffectQueue::new();
    queue.begin_update();
    queue.notify_model(1);
    queue.notify_model(1);
    queue.begin_update();
    queue.notify_view(5, 2);
    queue.push(Effect::RefreshWindows);
    assert!(!queue.end_update());
    assert!(queue.end_update());
    assert_eq!(queue.next_step(), FlushStep::Run(Effect::ModelNotification { model_id: 1 }));
    queue.effect_done();
    assert_eq!(
        queue.next_step(),
        FlushStep::Run(Effect::ViewNotification { window_id: 5, view_id: 2 })
    );
    // An effect may lead to other ones.
    queue.begin_update();
    queue.notify_model(1);
    assert!(!queue.end_update());
    queue.effect_done();
    assert_eq!(queue.next_step(), FlushStep::Run(Effect::RefreshWindows));
    queue.effect_done();
    assert_eq!(queue.next_step(), FlushStep::Run(Effect::ModelNotification { model_id: 1 }));
    queue.effect_done();
    assert_eq!(queue.next_step(), FlushStep::DrawWindows { refresh: true });
    queue.push(Effect::Event { entity_id: 4, payload: 6 });
    assert!(!queue.windows_drawn());
    assert_eq!(
        queue.next_step(),
        FlushStep::Run(Effect::Event { entity_id: 4, payload: 6 })
    );
    queue.effect_done();
    assert_eq!(queue.next_step(), FlushStep::DrawWindows { refresh: false });
    assert!(queue.windows_drawn());
    queue.begin_update();
    assert!(queue.end_update());
}

#[test]
fn the_last_cursor_style_gives_the_arrow_back() {
    assert!(restores_arrow(4, 5));
    assert!(!restores_arrow(3, 5));
    assert!(!restores_arrow(0, 0));
}

#[test]
fn subscribers_are_called_in_order() {
    let mut subscriptions = Subscriptions::new();
    let first = subscriptions.subscribe(SubscriptionKind::Subscription, 7);
    let second = subscriptions.subscribe(SubscriptionKind::Observation, 7);
    let mut third = subscriptions.subscribe(SubscriptionKind::Subscription, 7);
    let other = subscriptions.subscribe(SubscriptionKind::Subscription, 8);
    assert_eq!((first.id, second.id, third.id, other.id), (0, 1, 2, 3));

    let called = subscriptions.begin_calls(SubscriptionKind::Subscription, 7);
    assert_eq!(called, vec![0, 2]);
    // The second of them adds another one; both want to be called again.
    let fourth = subscriptions.subscribe(SubscriptionKind::Subscription, 7);
    subscriptions.keep(SubscriptionKind::Subscription, 7, 2);
    subscriptions.keep(SubscriptionKind::Subscription, 7, 0);
    third.detach();
    subscriptions.drop_subscription(&third);
    subscriptions.drop_subscription(&first);
    assert_eq!(
        subscriptions.begin_calls(SubscriptionKind::Subscription, 7),
        vec![third.id, fourth.id]
    );
    assert_eq!(subscriptions.begin_calls(SubscriptionKind::Observation, 7), vec![1]);
    subscriptions.remove_entity(8);
    assert_eq!(
        subscriptions.begin_calls(SubscriptionKind::Subscription, 8),
        Vec::<usize>::new()
    );
}

#[test]
fn handles_are_counted() {
    let mut counts = RefCounts::new();
    let model = EntityLocation::Model(1);
    let key = ElementKey { tag: 2, id: ElementStateId::of_part((3, 4)) };
    counts.inc_entity(model);
    counts.inc_entity(model);
    counts.dec_entity(model);
    assert!(counts.is_entity_alive(1));
    counts.inc_element_state(key);
    counts.dec_element_state(key);
    counts.dec_entity(model);
    assert!(!counts.is_entity_alive(1));
    let (entities, elements) = counts.take_dropped();
    assert_eq!(entities, vec![model]);
    assert_eq!(elements, vec![key]);
    let (entities, elements) = counts.take_dropped();
    assert!(entities.is_empty() && elements.is_empty());
    assert_eq!(ElementStateId::of_element(6), ElementStateId(6, 0));
}

#[test]
fn dropped_entities_are_removed() {
    let mut app = MutableAppContext::new();
    let window = app.next_window();
    let root = add_view(&mut app, window, true);
    app.add_window(window, root);
    let child = add_view(&mut app, window, true);
    let unbuilt = add_view(&mut app, window, false);
    assert!(!app.has_view(window, unbuilt));
    let model = add_model(&mut app);
    assert_eq!((root, child, model), (0, 1, 3));

    app.subscribe(SubscriptionKind::Observation, model);
    app.subscribe(SubscriptionKind::Subscription, child);
    app.focus(window, child);
    assert!(app.has_model(model));
    assert!(app.has_view(window, child));

    app.drop_handle(EntityLocation::Model(model));
    app.drop_handle(EntityLocation::View(window, child));
    // A weak handle takes the model back.
    assert!(app.upgrade(EntityLocation::Model(model)));
    let dropped = app.take_dropped();
    assert!(dropped.models.is_empty());
    assert_eq!(dropped.views, vec![(window, child)]);
    app.release_view(window, child);
    assert_eq!(
        app.view_released(window, child),
        Some(FocusChange::Moved { blurred: Some(child) })
    );
    assert!(!app.has_view(window, child));
    assert!(!app.upgrade(EntityLocation::View(window, child)));
    assert_eq!(app.emit_event(child), Vec::<usize>::new());
    assert_eq!(app.notify_model_observers(model), vec![0]);

    app.drop_handle(EntityLocation::Model(model));
    let dropped = app.take_dropped();
    assert_eq!(dropped.models, vec![model]);
    app.release_model(model);
    app.subscribe(SubscriptionKind::Observation, model);
    assert_eq!(app.notify_model_observers(model), Vec::<usize>::new());
}

#[test]
fn views_tell_their_observers() {
    let mut app = MutableAppContext::default();
    let view = add_view(&mut app, 4, true);
    app.add_window(4, view);
    app.subscribe(SubscriptionKind::Observation, view);
    assert_eq!(app.notify_view_observers(4, view), vec![0]);
    assert!(app.take_invalidation(4).unwrap().is_updated(view));
}

#[test]
fn an_entity_is_out_in_its_own_update() {
    let mut app = MutableAppContext::new();
    let model = app.begin_model();
    // While it is built, the model is not to be found.
    assert!(!app.has_model(model));
    assert!(!app.upgrade(EntityLocation::Model(model)));
    assert!(app.add_model(model));
    flush(&mut app);
    assert!(app.has_model(model));

    let view = app.begin_view(3);
    let inner = app.begin_model();
    assert!(!app.add_model(inner));
    assert_eq!((view, inner), (1, 2));
    assert!(app.add_option_view(3, view, true));
    flush(&mut app);

    assert!(app.begin_update(EntityLocation::Model(model)));
    assert!(!app.begin_update(EntityLocation::Model(model)));
    assert!(app.begin_update(EntityLocation::View(3, view)));
    assert!(!app.begin_update(EntityLocation::View(3, view)));
    assert!(!app.begin_update(EntityLocation::View(4, view)));
    // The last handle may go within the update.
    app.drop_handle(EntityLocation::Model(model));
    assert!(!app.end_update(EntityLocation::View(3, view)));
    assert!(app.end_update(EntityLocation::Model(model)));
    assert_eq!(app.take_dropped().models, vec![model]);
    app.release_model(model);
    flush(&mut app);

    assert!(app.take_out(EntityLocation::View(3, view)));
    assert_eq!(app.window_views(3), Vec::<usize>::new());
    app.put_back(EntityLocation::View(3, view));
    assert_eq!(app.window_views(3), vec![view]);
    assert_eq!(app.window_views(4), Vec::<usize>::new());
    assert!(!app.take_out(EntityLocation::Model(model)));
}

#[test]
fn windows_hold_their_root_views() {
    let mut app = MutableAppContext::new();
    let mut views = Vec::new();
    for i in 0..3 {
        let window = app.next_window();
        assert_eq!(window, i);
        let root = add_view(&mut app, window, true);
        app.add_window(window, root);
        views.push((window, root));
    }
    let mut ids = app.window_ids();
    ids.sort();
    assert_eq!(ids, vec![0, 1, 2]);
    // The first two views have no other handle.
    app.drop_handle(EntityLocation::View(0, views[0].1));
    app.drop_handle(EntityLocation::View(1, views[1].1));
    assert!(app.take_dropped().views.is_empty());
    app.remove_window(0);
    app.remove_window(77);
    assert_eq!(app.take_dropped().views, vec![views[0]]);
    app.release_view(0, views[0].1);
    assert_eq!(app.view_released(0, views[0].1), None);
    app.remove_all_windows();
    assert!(app.window_ids().is_empty());
    assert_eq!(app.take_dropped().views, vec![views[1]]);
    assert!(app.has_view(2, views[2].1));
}

#[test]
fn element_states_are_kept() {
    let mut app = MutableAppContext::new();
    let key = ElementKey { tag: 1, id: ElementStateId::of_element(2) };
    app.element_state(key);
    app.element_state(key);
    app.remove_element_state(key);
    assert!(app.take_dropped().element_states.is_empty());
}

// A counter that tells of its changes, and the conditions that are waited for: each wants a count.
struct Counting {
    app: MutableAppContext,
    location: EntityLocation,
    count: usize,
    waits: Vec<(usize, Option<usize>, Condition)>,
}

impl Counting {
    fn model() -> Counting {
        let mut app = MutableAppContext::new();
        let model = add_model(&mut app);
        Counting { app, location: EntityLocation::Model(model), count: 0, waits: Vec::new() }
    }

    fn root_view() -> Counting {
        let mut app = MutableAppContext::new();
        let window = app.next_window();
        let view = add_view(&mut app, window, true);
        app.add_window(window, view);
        Counting { app, location: EntityLocation::View(window, view), count: 0, waits: Vec::new() }
    }

    fn child_view() -> Counting {
        let mut counting = Counting::root_view();
        if let EntityLocation::View(window, _) = counting.location {
            let view = add_view(&mut counting.app, window, true);
            counting.location = EntityLocation::View(window, view);
        }
        counting
    }

    fn is_there(&self) -> bool {
        match self.location {
            EntityLocation::Model(model) => self.app.has_model(model),
            EntityLocation::View(window, view) => self.app.has_view(window, view),
        }
    }

    fn condition(&mut self, wanted: Option<usize>) -> usize {
        let (id, watched) = match self.location {
            EntityLocation::Model(model) => (model, Watched::Model),
            EntityLocation::View(_, view) => (view, Watched::View),
        };
        let callback = self.app.subscribe(SubscriptionKind::Observation, id).id;
        self.waits.push((callback, wanted, Condition::new(watched)));
        self.waits.len() - 1
    }

    fn check(&mut self, wait: usize) {
        if self.waits[wait].2.state == ConditionState::Check {
            let holds = if self.is_there() {
                Some(self.waits[wait].1 == Some(self.count))
            } else {
                None
            };
            self.waits[wait].2.take(ConditionEvent::Checked { holds });
        }
    }

    fn called(&mut self, id: usize, callbacks: Vec<usize>) {
        for callback in callbacks {
            for wait in self.waits.iter_mut() {
                if wait.0 == callback {
                    wait.2.take(ConditionEvent::Changed);
                }
            }
            self.app.keep_callback(SubscriptionKind::Observation, id, callback);
        }
    }

    fn update(&mut self, by: usize) {
        assert!(self.app.begin_update(self.location));
        self.count += by;
        match self.location {
            EntityLocation::Model(model) => self.app.notify_model(model),
            EntityLocation::View(window, view) => self.app.notify_view(window, view),
        }
        assert!(self.app.end_update(self.location));
        loop {
            match self.app.next_step() {
                FlushStep::Run(Effect::ModelNotification { model_id }) => {
                    let callbacks = self.app.notify_model_observers(model_id);
                    self.called(model_id, callbacks);
                    self.app.effect_done();
                }
                FlushStep::Run(Effect::ViewNotification { window_id, view_id }) => {
                    let callbacks = self.app.notify_view_observers(window_id, view_id);
                    self.called(view_id, callbacks);
                    self.app.effect_done();
                }
                FlushStep::Run(_) => self.app.effect_done(),
                FlushStep::DrawWindows { .. } => {
                    if self.app.windows_drawn() {
                        return;
                    }
                }
            }
        }
    }

    fn drop_entity(&mut self) {
        self.app.drop_handle(self.location);
        let dropped = self.app.take_dropped();
        for model in dropped.models {
            self.app.release_model(model);
        }
        for (window, view) in dropped.views {
            self.app.release_view(window, view);
            self.app.view_released(window, view);
        }
    }

    fn poll_once(&mut self, wait: usize) -> Option<()> {
        self.check(wait);
        match self.waits[wait].2.state {
            ConditionState::Met => Some(()),
            ConditionState::Failed(failure) => panic!("{}", failure.message()),
            _ => None,
        }
    }

    // Nothing happens any more: the wait is over when the entity is gone or when the time is up.
    fn wait(&mut self, wait: usize) {
        if self.poll_once(wait).is_none() {
            let last =
                if self.is_there() { ConditionEvent::Elapsed } else { ConditionEvent::Closed };
            self.waits[wait].2.take(last);
            assert_eq!(self.poll_once(wait), Some(()));
        }
    }
}

fn two_conditions(mut counting: Counting) {
    let condition1 = counting.condition(Some(2));
    let condition2 = counting.condition(Some(3));

    counting.update(1);
    assert_eq!(counting.poll_once(condition1), None);
    assert_eq!(counting.poll_once(condition2), None);

    counting.update(1);
    assert_eq!(counting.poll_once(condition1), Some(()));
    assert_eq!(counting.poll_once(condition2), None);

    counting.update(1);
    assert_eq!(counting.poll_once(condition2), Some(()));

    counting.update(0);
    assert_eq!(counting.poll_once(condition1), Some(()));
    assert_eq!(counting.poll_once(condition2), Some(()));
}

#[test]
fn test_model_condition() {
    two_conditions(Counting::model());
}

#[test]
#[should_panic]
fn test_model_condition_timeout() {
    let mut counting = Counting::model();
    let condition = counting.condition(None);
    counting.wait(condition);
}

#[test]
#[should_panic(expected = "model dropped with pending condition")]
fn test_model_condition_panic_on_drop() {
    let mut counting = Counting::model();
    let condition = counting.condition(None);
    counting.drop_entity();
    counting.wait(condition);
}

#[test]
fn test_view_condition() {
    two_conditions(Counting::root_view());
}

#[test]
#[should_panic]
fn test_view_condition_timeout() {
    let mut counting = Counting::root_view();
    let condition = counting.condition(None);
    counting.wait(condition);
}

#[test]
#[should_panic(expected = "view dropped with pending condition")]
fn test_view_condition_panic_on_drop() {
    let mut counting = Counting::child_view();
    let condition = counting.condition(None);
    counting.drop_entity();
    counting.wait(condition);
}

fn failure(watched: Watched, events: Vec<ConditionEvent>) -> String {
    let mut condition = Condition::new(watched);
    for event in events {
        condition.take(event);
    }
    match condition.state {
        ConditionState::Failed(failure) => failure.message(),
        other => panic!("{:?}", other),
    }
}

#[test]
fn conditions_fail() {
    let waiting = ConditionEvent::Checked { holds: Some(false) };
    assert_eq!(
        failure(Watched::Model, vec![waiting, ConditionEvent::Elapsed]),
        "condition timed out"
    );
    assert_eq!(
        failure(Watched::Model, vec![waiting, ConditionEvent::Closed]),
        "model dropped with pending condition"
    );
    assert_eq!(
        failure(
            Watched::View,
            vec![waiting, ConditionEvent::Changed, ConditionEvent::Checked { holds: None }]
        ),
        "view dropped with pending condition"
    );
    assert_eq!(condition_timeout(Watched::Model, true), 5000);
    assert_eq!(condition_timeout(Watched::Model, false), 1000);
    assert_eq!(condition_timeout(Watched::View, true), 2000);
    assert_eq!(condition_timeout(Watched::View, false), 500);
    assert_eq!(next_timeout(false), 1000);
}

#[test]
fn waits_fail() {
    assert_eq!(wait_failure(Awaited::Event, WaitResult::Came), None);
    assert_eq!(
        wait_failure(Awaited::Notification, WaitResult::TimedOut).unwrap(),
        "next notification timed out"
    );
    assert_eq!(
        wait_failure(Awaited::Event, WaitResult::TimedOut).unwrap(),
        "next event timed out"
    );
    assert_eq!(
        wait_failure(Awaited::Notification, WaitResult::Dropped).unwrap(),
        "model dropped while test was waiting for its next notification"
    );
    assert_eq!(
        wait_failure(Awaited::Event, WaitResult::Dropped).unwrap(),
        "model dropped while test was waiting for its next event"
    );
}

#[test]
fn effects_of_an_update_are_run() {
    let mut app = MutableAppContext::new();
    let model = app.begin_model();
    app.notify_model(model);
    app.notify_model(model);
    app.emit(Effect::RefreshWindows);
    assert!(app.add_model(model));
    assert_eq!(
        app.next_step(),
        FlushStep::Run(Effect::ModelNotification { model_id: model })
    );
    app.effect_done();
    assert_eq!(app.next_step(), FlushStep::Run(Effect::RefreshWindows));
    app.effect_done();
    app.notify_view(3, 9);
    assert_eq!(
        app.next_step(),
        FlushStep::Run(Effect::ViewNotification { window_id: 3, view_id: 9 })
    );
    app.effect_done();
    assert_eq!(app.next_step(), FlushStep::DrawWindows { refresh: true });
    assert!(app.windows_drawn());
    assert_eq!(app.model_ids(), vec![model]);
    assert!(app.take_out(EntityLocation::Model(model)));
    assert!(app.model_ids().is_empty() && app.view_ids().is_empty());
}

#[test]
fn subscriptions_are_kept_and_dropped() {
    let mut app = MutableAppContext::new();
    let first = app.subscribe(SubscriptionKind::Subscription, 5);
    let second = app.subscribe(SubscriptionKind::Subscription, 5);
    assert_eq!(app.emit_event(5), vec![first.id, second.id]);
    assert!(app.emit_event(5).is_empty());
    app.keep_callback(SubscriptionKind::Subscription, 5, second.id);
    assert_eq!(app.emit_event(5), vec![second.id]);
    app.keep_callback(SubscriptionKind::Subscription, 5, second.id);
    app.drop_subscription(&second);
    assert!(app.emit_event(5).is_empty());
}

#[test]
fn resized_windows_are_drawn() {
    let mut app = MutableAppContext::new();
    let window = app.next_window();
    app.window_resized(window);
    assert!(app.take_invalidation(window).is_none());
    app.add_window(window, 1);
    assert!(app.take_invalidation(window).is_none());
    assert_eq!(app.focus(window, 8), FocusChange::Moved { blurred: Some(1) });
    assert_eq!(app.focused_view_id(window), Some(8));
    assert_eq!(app.root_view_id(window), Some(1));
    assert_eq!(app.root_view_id(window + 1), None);
    app.window_resized(window);
    assert!(app.take_invalidation(window).unwrap().updated().is_empty());
    assert!(app.take_invalidation(window).is_none());
}
