use editor_core::app_windows::AppWindows;
use editor_core::content_mask::{Bounds, ContentMask, ContentMaskStack, Dimensions, Position};
use editor_core::div::{div, Overflow};
use editor_core::empty::{Empty, Extent};
use editor_core::event_phases::{DispatchPhase, EventAnswers, EventDispatch, KeyStack};
use editor_core::face_pile::layers;
use editor_core::focus::{FocusHandles, FocusTree};
use editor_core::frame_states::{FrameRequest, FrameStates, NextFrameCallbacks};
use editor_core::key_matchers::KeyMatchers;
use editor_core::native_event::{
    get_key_text, key_to_native, kind_of_code, modifiers_of_flags, mouse_button, Modifiers,
    NativeEvent, NativeKind, PlatformEvent,
};
use editor_core::presenter::{
    check_parent, describe_view, finish_event, make_events, topmost, Axis, EventContext,
    EventFiring, HoverChange, MouseButton, MouseInput, MouseRegion, ParentId, ParentMismatch,
    Presenter, RegionEvent,
};
use editor_core::stacking_order::{back_to_front, StackingOrder};
use editor_core::text_layout_cache::{
    LineKey, ShapedBoundary, ShapedGlyph, ShapedRun, TextLayoutCache,
};
use editor_core::window_handle::{AnyWindowHandle, ElementId, WindowHandle, WindowId};
use editor_core::window_input::{
    alert_style, key_reply, should_close, KeyPress, KeyReply, NativeRange, PromptLevel, ViewInput,
    ViewStep, WindowEventResult, WindowInput, NOT_FOUND,
};
use editor_core::keystroke::Keystroke;

#[test]
fn axes_are_inverted() {
    assert_eq!(Axis::Horizontal.invert(), Axis::Vertical);
    assert_eq!(Axis::Vertical.invert().invert(), Axis::Vertical);
    assert_eq!(Axis::Horizontal.name(), "horizontal");
    assert_eq!(Axis::Vertical.name(), "vertical");
}

#[test]
fn empty_elements_fill_their_room() {
    assert_eq!(Empty::new().extent(true), Extent::Max);
    assert_eq!(Empty::new().extent(false), Extent::Min);
    assert_eq!(Empty::new().collapsed().extent(true), Extent::Min);
}

fn region(id: u64, depth: usize, contains_mouse: bool) -> MouseRegion {
    MouseRegion { id: Some(id), depth, contains_mouse }
}

#[test]
fn hovers_are_told_once() {
    let mut presenter = Presenter::new();
    let regions = vec![
        region(1, 0, true),
        region(2, 1, true),
        region(3, 1, true),
        MouseRegion { id: None, depth: 1, contains_mouse: true },
        region(4, 1, false),
    ];
    assert_eq!(
        presenter.make_hover_events(&regions),
        vec![
            HoverChange { region: 2, started: true },
            HoverChange { region: 1, started: true }
        ]
    );
    assert_eq!(presenter.make_hover_events(&regions), vec![]);
    let regions = vec![region(1, 0, true), region(2, 1, false), region(3, 1, false)];
    assert_eq!(
        presenter.make_hover_events(&regions),
        vec![
            HoverChange { region: 2, started: false },
            HoverChange { region: 1, started: false },
            HoverChange { region: 0, started: true }
        ]
    );
}

#[test]
fn clicks_need_the_mouse_to_stay() {
    let mut presenter = Presenter::default();
    let names = vec![10, 20, 30];
    let regions = vec![region(1, 0, true), region(2, 0, false), region(3, 1, true)];
    let groups = presenter.dispatch_event(
        MouseInput::Down,
        MouseButton::Left,
        &names,
        &regions,
        &vec![true, true, false],
        &vec![],
    );
    assert_eq!(groups.len(), 2);
    assert_eq!(groups[0].event, RegionEvent::Down);
    assert_eq!(groups[0].regions, vec![30, 10]);
    assert_eq!(groups[1].event, RegionEvent::DownOut);
    assert_eq!(groups[1].regions, vec![20]);
    assert_eq!(presenter.clicked(), (&vec![10, 20], Some(MouseButton::Left)));

    let groups = presenter.dispatch_event(
        MouseInput::Up,
        MouseButton::Left,
        &names,
        &regions,
        &vec![],
        &vec![false, true],
    );
    let events: Vec<RegionEvent> = groups.iter().map(|g| g.event).collect();
    assert_eq!(events, vec![RegionEvent::Up, RegionEvent::UpOut, RegionEvent::Click]);
    assert_eq!(groups[2].regions, vec![20]);
    assert_eq!(presenter.clicked(), (&vec![], None));
}

#[test]
fn moves_drag_and_hover() {
    let mut presenter = Presenter::new();
    let names = vec![10, 20];
    let regions = vec![region(1, 0, true), region(2, 0, false)];
    let groups = presenter.dispatch_event(
        MouseInput::Moved { pressed: true },
        MouseButton::Left,
        &names,
        &regions,
        &vec![],
        &vec![],
    );
    let events: Vec<RegionEvent> = groups.iter().map(|g| g.event).collect();
    assert_eq!(events, vec![RegionEvent::Drag, RegionEvent::Move, RegionEvent::Hover]);
    assert_eq!(groups[2].regions, vec![10]);
    assert_eq!(groups[2].entered, vec![true]);
    let groups = presenter.dispatch_event(
        MouseInput::Moved { pressed: false },
        MouseButton::Left,
        &names,
        &regions,
        &vec![],
        &vec![],
    );
    assert_eq!(groups.len(), 2);
    assert!(groups[1].regions.is_empty());
    let groups = presenter.dispatch_event(
        MouseInput::Other,
        MouseButton::Left,
        &names,
        &regions,
        &vec![],
        &vec![],
    );
    assert!(groups.is_empty());
}

#[test]
fn regions_are_taken_from_the_top() {
    assert_eq!(make_events(&vec![true, false, true], true), vec![2, 0]);
    assert_eq!(make_events(&vec![true, false, true], false), vec![1]);
    assert_eq!(topmost(&vec![true, true, false]), Some(1));
    assert_eq!(topmost(&vec![false]), None);
}

#[test]
fn events_bubble_until_they_are_handled() {
    let mut firing = EventFiring::new(false);
    let handlers = vec![false, true, true, true];
    assert_eq!(firing.next_region(&handlers), Some(1));
    firing.called(true, true);
    assert_eq!(firing.next_region(&handlers), Some(2));
    firing.called(false, true);
    assert!(firing.handled);
    assert_eq!(firing.next_region(&handlers), None);

    let mut firing = EventFiring::new(false);
    firing.next_region(&handlers);
    firing.called(false, false);
    assert_eq!(firing.next_region(&handlers), Some(2));
}

#[test]
fn views_are_rendered_when_they_change() {
    let mut windows = AppWindows::new();
    windows.add_window(1, 5);
    windows.view_updated(1, 5);
    windows.view_updated(1, 6);
    windows.view_updated(1, 7);
    windows.view_removed(1, 6);
    let mut presenter = Presenter::new();
    let invalidation = windows.take_invalidation(1).unwrap();
    assert_eq!(presenter.invalidate(&invalidation), vec![5, 7]);
    assert!(presenter.is_rendered(5));
    assert!(!presenter.is_rendered(6));

    windows.view_updated(1, 7);
    windows.view_removed(1, 5);
    let invalidation = windows.take_invalidation(1).unwrap();
    assert_eq!(presenter.invalidate(&invalidation), vec![7]);
    assert!(!presenter.is_rendered(5));
    assert!(!presenter.also_refreshed(&invalidation, 7));
}

#[test]
fn views_are_laid_out_where_they_belong() {
    assert_eq!(check_parent(Some(1), Some(ParentId::View(1))), None);
    assert_eq!(check_parent(None, Some(ParentId::Root)), None);
    let view = describe_view("Pane", 4);
    assert_eq!(view, "Pane with id 4");
    let mismatch = check_parent(Some(1), Some(ParentId::View(2))).unwrap();
    assert_eq!(mismatch, ParentMismatch::OtherParent { layout_parent: 1, app_parent: 2 });
    assert_eq!(
        mismatch.message(&view, "A with id 1", "B with id 2"),
        "View Pane with id 4 was laid out with parent A with id 1 when it was constructed with parent B with id 2"
    );
    assert_eq!(
        check_parent(None, Some(ParentId::View(2))).unwrap().message(&view, "", "B"),
        "View Pane with id 4 was laid out without a parent when it was constructed with parent B"
    );
    assert_eq!(
        check_parent(Some(2), Some(ParentId::Root)).unwrap().message(&view, "A", ""),
        "View Pane with id 4 was laid out with parent A when it was constructed as a window root"
    );
    assert_eq!(
        check_parent(None, None).unwrap().message(&view, "", ""),
        "View Pane with id 4 did not have a registered parent in the app context"
    );
}

#[test]
fn events_end_at_the_root_view() {
    let mut context = EventContext::new();
    context.enter_view(7);
    context.notify();
    let end = finish_event(Some(7), Some(true), &context);
    assert!(end.handled);
    assert_eq!(end.notified, vec![7]);
    assert!(!finish_event(Some(7), None, &context).handled);
    let end = finish_event(None, Some(true), &context);
    assert!(!end.handled && end.notified.is_empty());
}

#[test]
fn handlers_invalidate_their_views() {
    let mut context = EventContext::new();
    context.notify();
    context.enter_view(3);
    context.enter_view(4);
    assert_eq!(context.view_id(), Some(4));
    assert!(context.is_parent_view_focused(Some(4)));
    assert!(!context.is_parent_view_focused(None));
    context.notify();
    assert_eq!(context.leave_view(), Some(4));
    assert_eq!(context.view_id(), Some(3));
    assert!(context.is_invalidated(4));
    assert!(!context.is_invalidated(3));
    assert_eq!(context.notify_count(), 2);
}

fn native(kind: NativeKind) -> NativeEvent {
    NativeEvent {
        kind,
        modifiers: Modifiers { ctrl: true, alt: false, shift: false, cmd: true },
        characters: "\u{f704}".to_string(),
        is_repeat: true,
        button_number: 4,
        click_count: 2,
        precise_scrolling: true,
        in_window: true,
    }
}

#[test]
fn native_keys_have_names() {
    assert_eq!(key_to_native("up"), "\u{f700}");
    assert_eq!(key_to_native("f12"), "\u{f70f}");
    assert_eq!(key_to_native("delete"), "\u{f728}");
    assert_eq!(key_to_native("x"), "x");
    assert_eq!(get_key_text("\u{f72d}"), Some("pagedown".to_string()));
    assert_eq!(get_key_text("\u{3}"), Some("enter".to_string()));
    assert_eq!(get_key_text("\u{19}"), Some("tab".to_string()));
    assert_eq!(get_key_text("\u{1b}"), Some("escape".to_string()));
    assert_eq!(get_key_text(" "), Some("space".to_string()));
    assert_eq!(get_key_text("\u{10020}"), Some("space".to_string()));
    assert_eq!(get_key_text("ab"), Some("ab".to_string()));
    assert_eq!(get_key_text(""), None);
}

#[test]
fn native_events_are_read() {
    match PlatformEvent::from_native(&native(NativeKind::KeyDown)) {
        Some(PlatformEvent::KeyDown { keystroke, is_held }) => {
            assert_eq!(keystroke.key, "f1");
            assert!(keystroke.ctrl && keystroke.cmd && !keystroke.alt && !keystroke.shift);
            assert!(is_held);
        }
        _ => panic!("not a key"),
    }
    match PlatformEvent::from_native(&native(NativeKind::MouseDown)) {
        Some(PlatformEvent::MouseDown { button, click_count, .. }) => {
            assert_eq!(button, MouseButton::NavigateForward);
            assert_eq!(click_count, 2);
        }
        _ => panic!("not a button"),
    }
    match PlatformEvent::from_native(&native(NativeKind::MouseDragged)) {
        Some(PlatformEvent::MouseMoved { pressed_button, .. }) => {
            assert_eq!(pressed_button, Some(MouseButton::NavigateForward));
        }
        _ => panic!("not a drag"),
    }
    assert!(matches!(
        PlatformEvent::from_native(&native(NativeKind::ScrollWheel)),
        Some(PlatformEvent::ScrollWheel { precise: true })
    ));
    assert!(matches!(
        PlatformEvent::from_native(&native(NativeKind::FlagsChanged)),
        Some(PlatformEvent::ModifiersChanged(_))
    ));
    assert!(PlatformEvent::from_native(&native(NativeKind::Other)).is_none());
    let outside = NativeEvent { in_window: false, ..native(NativeKind::MouseMoved) };
    assert!(PlatformEvent::from_native(&outside).is_none());
    let untracked = NativeEvent { button_number: 5, ..native(NativeKind::MouseUp) };
    assert!(PlatformEvent::from_native(&untracked).is_none());
    let silent = NativeEvent { characters: String::new(), ..native(NativeKind::KeyUp) };
    assert!(PlatformEvent::from_native(&silent).is_none());
    assert_eq!(mouse_button(2), Some(MouseButton::Middle));
}

#[test]
fn native_numbers_are_read() {
    for code in [1, 3, 25] {
        assert_eq!(kind_of_code(code), NativeKind::MouseDown);
    }
    for code in [2, 4, 26] {
        assert_eq!(kind_of_code(code), NativeKind::MouseUp);
    }
    for code in [6, 7, 27] {
        assert_eq!(kind_of_code(code), NativeKind::MouseDragged);
    }
    assert_eq!(kind_of_code(5), NativeKind::MouseMoved);
    assert_eq!(kind_of_code(10), NativeKind::KeyDown);
    assert_eq!(kind_of_code(11), NativeKind::KeyUp);
    assert_eq!(kind_of_code(12), NativeKind::FlagsChanged);
    assert_eq!(kind_of_code(22), NativeKind::ScrollWheel);
    for code in [0, 8, 9, 13, 21, 23, 32, 33, 35, 36, 37, u64::MAX] {
        assert_eq!(kind_of_code(code), NativeKind::Other);
    }
    let none = Modifiers { ctrl: false, alt: false, shift: false, cmd: false };
    assert_eq!(modifiers_of_flags(0), none);
    assert_eq!(modifiers_of_flags(0x10000), none);
    assert_eq!(modifiers_of_flags(0x20000), Modifiers { shift: true, ..none });
    assert_eq!(modifiers_of_flags(0x40000), Modifiers { ctrl: true, ..none });
    assert_eq!(modifiers_of_flags(0x80000), Modifiers { alt: true, ..none });
    assert_eq!(modifiers_of_flags(0x100000), Modifiers { cmd: true, ..none });
    assert_eq!(
        modifiers_of_flags(0x1f0108),
        Modifiers { ctrl: true, alt: true, shift: true, cmd: true }
    );
}

fn press(text: &str) -> KeyPress {
    KeyPress { keystroke: Keystroke::parse(text).unwrap(), input: Some(text.to_string()) }
}

#[test]
fn held_keys_are_ignored_after_others() {
    let mut input = WindowInput::new();
    assert!(input.key_down(press("a"), false));
    assert!(input.key_down(press("a"), true));
    assert!(input.key_down(press("b"), false));
    assert!(!input.key_down(press("a"), true));
    input.cancel_operation();
    assert!(!input.key_down(press("b"), true));
    let cancel = KeyPress {
        keystroke: Keystroke::parse("cmd-.").unwrap(),
        input: Some(".".to_string()),
    };
    assert!(input.key_down(cancel, true));
}

#[test]
fn drags_repeat_until_they_end() {
    let mut input = WindowInput::default();
    let step = input.view_input(ViewInput::Dragged);
    assert_eq!(step, ViewStep { deliver: true, drag: Some(1) });
    assert!(input.drag_goes_on(1));
    input.view_input(ViewInput::Other);
    assert!(input.drag_goes_on(1));
    input.view_input(ViewInput::LeftButtonUp);
    assert!(!input.drag_goes_on(1));

    let modifiers = Modifiers { ctrl: false, alt: true, shift: false, cmd: false };
    assert!(input.view_input(ViewInput::ModifiersChanged(modifiers)).deliver);
    assert!(!input.view_input(ViewInput::ModifiersChanged(modifiers)).deliver);
}

#[test]
fn the_platform_is_answered() {
    assert_eq!(key_reply(None), KeyReply::No);
    assert_eq!(key_reply(Some(WindowEventResult::Handled)), KeyReply::Yes);
    assert_eq!(
        key_reply(Some(WindowEventResult::Unhandled { can_accept_input: true })),
        KeyReply::AskInputMethod
    );
    assert_eq!(
        key_reply(Some(WindowEventResult::Unhandled { can_accept_input: false })),
        KeyReply::No
    );
    assert_eq!(alert_style(PromptLevel::Info), 1);
    assert_eq!(alert_style(PromptLevel::Warning), 0);
    assert_eq!(alert_style(PromptLevel::Critical), 2);
    assert!(should_close(None));
    assert!(!should_close(Some(false)));
    assert_eq!(NativeRange { location: NOT_FOUND, length: 1 }.replaced(), None);
    assert_eq!(NativeRange { location: 3, length: 4 }.replaced(), Some((3, 7)));
    assert_eq!(
        NativeRange::of_selection(Some((5, 9))),
        NativeRange { location: 5, length: 4 }
    );
    assert_eq!(NativeRange::of_selection(None), NativeRange { location: 0, length: 0 });
}

fn order(levels: &[u32]) -> StackingOrder {
    let mut order = StackingOrder::new();
    for level in levels {
        order.push(*level);
    }
    order
}

#[test]
fn elements_are_stacked() {
    assert!(order(&[1]).below(&order(&[1, 0])));
    assert!(order(&[1, 5]).below(&order(&[2])));
    assert!(!order(&[2]).below(&order(&[2])));
    let mut deep = order(&[4, 6]);
    let copy = deep.clone();
    assert_eq!(deep.pop(), Some(6));
    assert!(deep.below(&copy));
    assert_eq!(deep.pop(), Some(4));
    assert_eq!(deep.pop(), None);
    assert_eq!(
        back_to_front(&vec![order(&[2]), order(&[1]), order(&[2]), order(&[0, 9])]),
        vec![3, 1, 0, 2]
    );
}

#[test]
fn long_stacks_are_kept() {
    let levels: Vec<u32> = (0..40).collect();
    let mut long = order(&levels);
    for level in (0..40).rev() {
        assert_eq!(long.pop(), Some(level));
    }
}

#[test]
fn a_key_event_may_begin_stopped() {
    let mut dispatch = EventDispatch::for_key(&vec![3, 1], false);
    assert_eq!(dispatch.next_call(), Some((3, DispatchPhase::Capture)));
    dispatch.called(false);
    assert_eq!(dispatch.next_call(), None);
    assert_eq!(EventDispatch::for_key(&vec![], false).next_call(), None);
    let mut dispatch = EventDispatch::for_key(&vec![3, 1], true);
    let mut calls = 0;
    while dispatch.next_call().is_some() {
        calls += 1;
    }
    assert_eq!(calls, 4);
}

#[test]
fn events_go_in_and_out() {
    let mut dispatch = EventDispatch::new(&vec![3, 1]);
    assert_eq!(dispatch.next_call(), Some((3, DispatchPhase::Capture)));
    dispatch.called(true);
    assert_eq!(dispatch.next_call(), Some((1, DispatchPhase::Capture)));
    dispatch.called(true);
    assert_eq!(dispatch.next_call(), Some((1, DispatchPhase::Bubble)));
    dispatch.called(false);
    assert_eq!(dispatch.next_call(), None);
    assert_eq!(DispatchPhase::default(), DispatchPhase::Bubble);
}

#[test]
fn keys_go_through_the_focused_elements() {
    let mut stack = KeyStack::new();
    stack.push_listeners(&vec![1, 2]);
    stack.push_context(true);
    stack.push_context(false);
    stack.push_context(false);
    stack.pop_context(false);
    stack.pop_context(true);
    stack.push_listeners(&vec![1]);
    stack.freeze();
    stack.push_listeners(&vec![1]);
    stack.pop_frames(3);
    assert_eq!(stack.listeners(1), vec![0, 3]);
    assert_eq!(stack.contexts(3), vec![2]);
    assert_eq!(stack.contexts(0), Vec::<usize>::new());
    assert_eq!(stack.action_listeners(2, 3), vec![1]);
    stack.start_frame();
    assert_eq!(stack.listeners(1), Vec::<usize>::new());
    stack.push_listeners(&vec![5, 6]);
    stack.pop_frames(1);
    assert_eq!(stack.listeners(6), Vec::<usize>::new());
    assert_eq!(stack.listeners(5), vec![0]);
}

#[test]
fn focus_is_found_in_the_tree() {
    let mut handles = FocusHandles::new();
    let outer = handles.add();
    let inner = handles.add();
    let other = handles.add();
    assert!(!outer.same(&inner));
    assert!(handles.for_id(inner));
    handles.drop_handle(inner);
    assert!(handles.is_held(inner));

    let mut tree = FocusTree::new();
    assert!(!tree.enter(outer));
    tree.enter(inner);
    tree.leave();
    tree.leave();
    tree.enter(other);
    tree.leave();
    assert!(tree.contains(outer, inner));
    assert!(tree.contains(inner, inner));
    assert!(!tree.contains(inner, outer));
    assert!(!tree.contains(other, inner));
    assert!(tree.focused(&handles).is_none());
    assert!(!tree.contains_focused(outer, &handles));
    tree.focus(inner);
    assert!(tree.is_focused(inner));
    assert!(tree.focused(&handles).unwrap().same(&inner));
    assert!(tree.contains_focused(outer, &handles));
    assert!(!tree.within_focused(outer, &handles));
    assert!(tree.within_focused(inner, &handles));

    // With the last handle goes what has the focus.
    handles.drop_handle(inner);
    assert!(!handles.is_held(inner));
    assert!(!handles.for_id(inner));
    assert!(tree.is_focused(inner));
    assert!(tree.focused(&handles).is_none());
    assert!(!tree.contains_focused(outer, &handles));
    assert!(!tree.within_focused(inner, &handles));

    assert!(tree.enter(inner));
    tree.blur();
    assert!(!tree.is_focused(inner));
    tree.start_frame();
    assert!(!tree.contains(outer, inner));
}

#[test]
fn elements_within_themselves_are_found() {
    let mut handles = FocusHandles::new();
    let outer = handles.add();
    let inner = handles.add();
    let mut tree = FocusTree::new();
    tree.enter(outer);
    tree.enter(inner);
    tree.enter(outer);
    assert!(tree.contains(outer, inner));
    assert!(tree.contains(inner, outer));
    tree.focus(inner);
    assert!(tree.contains_focused(outer, &handles));
    assert!(tree.within_focused(outer, &handles));
}

#[test]
fn defaults_are_prevented() {
    let mut answers = EventAnswers::new();
    assert!(answers.default_prevented() && answers.propagate);
    assert_eq!(answers, EventAnswers::default());
    answers.begin(true);
    assert!(!answers.default_prevented());
    answers.prevent_default();
    answers.stop_propagation();
    answers.begin(false);
    assert!(answers.default_prevented() && !answers.propagate);
    answers.begin(true);
    assert_eq!(answers, EventAnswers { propagate: true, default_prevented: false });
}

#[test]
fn keys_wait_at_elements() {
    let key = |text: &str| Keystroke::parse(text).unwrap();
    let mut matchers = KeyMatchers::new();
    assert!(matchers.pending(1).is_none());
    matchers.enter(1);
    matchers.enter(2);
    assert_eq!(matchers.pending(1), Some(&vec![]));
    assert_eq!(matchers.match_keystroke(1, vec![key("ctrl-a")], None), None);
    assert_eq!(matchers.match_keystroke(2, vec![key("b")], None), None);
    matchers.enter(1);
    assert_eq!(matchers.pending(1), Some(&vec![key("ctrl-a")]));

    matchers.start_frame();
    assert!(matchers.pending(1).is_none());
    matchers.enter(1);
    assert_eq!(matchers.pending(1), Some(&vec![key("ctrl-a")]));
    matchers.enter(3);
    matchers.match_keystroke(3, vec![key("c")], None);
    assert_eq!(matchers.match_keystroke(3, vec![key("d")], Some(7)), Some(7));
    assert_eq!(matchers.pending(1), Some(&vec![]));
    assert_eq!(matchers.pending(3), Some(&vec![]));
    // An element that has not been painted yet still has its keystrokes.
    matchers.enter(2);
    assert_eq!(matchers.pending(2), Some(&vec![key("b")]));
    matchers.start_frame();
    matchers.start_frame();
    matchers.enter(2);
    assert_eq!(matchers.pending(2), Some(&vec![]));
}

#[test]
fn states_last_for_a_frame() {
    let mut states = FrameStates::new();
    assert_eq!(states.take(1), None);
    states.put(1, 10);
    states.put(2, 20);
    states.start_frame();
    assert_eq!(states.take(1), Some(10));
    states.put(1, 11);
    states.start_frame();
    assert_eq!(states.take(1), Some(11));
    assert_eq!(states.take(2), None);
}

#[test]
fn frames_are_asked_for_once() {
    let mut callbacks = NextFrameCallbacks::new();
    assert_eq!(callbacks.on_next_frame(1, 7), FrameRequest::ListenAndStart);
    assert_eq!(callbacks.on_next_frame(1, 8), FrameRequest::Scheduled);
    assert_eq!(callbacks.on_next_frame(2, 9), FrameRequest::ListenAndStart);
    assert_eq!(callbacks.frame(1), vec![7, 8]);
    assert!(callbacks.can_stop(1));
    assert!(!callbacks.can_stop(2));
    assert_eq!(callbacks.on_next_frame(1, 7), FrameRequest::Start);
}

fn line(text: &str) -> LineKey {
    LineKey { text: text.to_string(), font_size: 14, runs: vec![(text.len(), 3)] }
}

#[test]
fn layouts_are_kept_while_they_are_used() {
    let mut cache = TextLayoutCache::new();
    assert_eq!(cache.find(&line("a")), None);
    cache.insert(line("a"), 1);
    cache.insert(line("b"), 2);
    assert_eq!(cache.find(&line("a")), Some(1));
    cache.end_frame();
    assert_eq!(cache.find(&line("a")), Some(1));
    cache.end_frame();
    assert_eq!(cache.find(&line("a")), Some(1));
    assert_eq!(cache.find(&line("b")), None);
    let other_font = LineKey { runs: vec![(1, 4)], ..line("a") };
    assert_eq!(cache.find(&other_font), None);
}

#[test]
fn runs_show_their_glyphs() {
    let glyph = ShapedGlyph { id: 5, index: 0 };
    let run = ShapedRun { font_id: 1, glyphs: vec![glyph] };
    assert_eq!(run.glyphs(), &[glyph]);
    assert!(
        ShapedBoundary { run_ix: 0, glyph_ix: 9 } < ShapedBoundary { run_ix: 1, glyph_ix: 0 }
    );
}

fn mask(x: i64, y: i64, width: i64, height: i64) -> ContentMask {
    ContentMask {
        bounds: Bounds { origin: Position { x, y }, size: Dimensions { width, height } },
    }
}

#[test]
fn masks_are_cut_by_those_around_them() {
    assert_eq!(mask(0, 0, 10, 10).intersect(&mask(5, -5, 10, 10)), mask(5, 0, 5, 5));
    assert_eq!(mask(0, 0, 2, 2).intersect(&mask(5, 0, 2, 2)), mask(5, 0, -3, 2));
    let size = Dimensions { width: 100, height: 50 };
    let mut stack = ContentMaskStack::new();
    assert_eq!(stack.content_mask(size), mask(0, 0, 100, 50));
    stack.push(mask(90, 40, 100, 100), size);
    assert_eq!(stack.content_mask(size), mask(90, 40, 10, 10));
    stack.push(mask(95, 0, 100, 100), size);
    assert_eq!(stack.content_mask(size), mask(95, 40, 5, 10));
    assert_eq!(stack.pop(), Some(mask(95, 40, 5, 10)));
    assert_eq!(stack.content_mask(size), mask(90, 40, 10, 10));
}

#[test]
fn window_handles_keep_their_type() {
    let handle: WindowHandle<String> = WindowHandle::new(WindowId(6));
    let any: AnyWindowHandle = handle.clone().into_any(2);
    assert_eq!(any.window_id(), WindowId(6));
    assert!(any.downcast::<String>(2).is_some());
    assert!(any.downcast::<u8>(3).is_none());
}

#[test]
fn element_names_differ() {
    assert!(ElementId::of_text("a").same(&ElementId::of_text("a")));
    assert!(!ElementId::of_text("1").same(&ElementId::of_number(1)));
    assert!(ElementId::of_int(1).same(&ElementId::of_number(1)));
    assert!(ElementId::of_int(-1).same(&ElementId::of_number(usize::MAX)));
    assert!(!ElementId::of_view(1).same(&ElementId::of_view(2)));
    let id = FocusHandles::new().add();
    assert!(ElementId::of_focus(id).same(&ElementId::of_focus(id)));
}

#[test]
fn boxes_scroll() {
    let scroll = Position { x: 3, y: -4 };
    let plain = div().z_index(2);
    assert_eq!(plain.levels(), (2, 3));
    assert_eq!(div().levels(), (0, 1));
    assert_eq!(plain.scroll_offset(), Position { x: 0, y: 0 });
    assert_eq!(div().overflow_scroll(scroll).scroll_offset(), scroll);
    assert_eq!(div().overflow_x_scroll(scroll).scroll_offset(), Position { x: 3, y: 0 });
    assert_eq!(
        div().id(ElementId::of_number(1)).overflow_y_scroll(scroll).scroll_offset(),
        Position { x: 0, y: -4 }
    );
    assert_eq!(
        div().overflow_scroll(scroll).overflow_hidden().scroll_offset(),
        Position { x: 0, y: 0 }
    );
    assert_eq!(
        div().overflow_scroll(scroll).overflow_hidden_x().scroll_offset(),
        Position { x: 0, y: -4 }
    );
    assert_eq!(
        div().overflow_scroll(scroll).overflow_hidden_y().scroll_offset(),
        Position { x: 3, y: 0 }
    );
    assert_ne!(Overflow::Hidden, Overflow::Scroll);
}

#[test]
fn faces_overlap() {
    let faces = layers(3);
    let z: Vec<u8> = faces.iter().map(|f| f.z_index).collect();
    assert_eq!(z, vec![3, 2, 1]);
    let overlapped: Vec<bool> = faces.iter().map(|f| f.overlapped).collect();
    assert_eq!(overlapped, vec![true, true, false]);
    assert!(layers(0).is_empty());
    assert_eq!(layers(256)[0].z_index, 0);
}
