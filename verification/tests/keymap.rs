use editor_core::context_predicate::{Context, ContextPredicate};
use editor_core::keymap::{Action, Binding, Keymap, MatchResult, Matcher};
use editor_core::keystroke::Keystroke;

fn action(name: &str) -> Action {
    Action { name: name.to_string(), argument: String::new() }
}

fn action_with(name: &str, argument: &str) -> Action {
    Action { name: name.to_string(), argument: argument.to_string() }
}

fn context(identifier: &str) -> Context {
    let mut cx = Context::default();
    cx.set.insert(identifier.to_string());
    cx
}

fn key(text: &str) -> Keystroke {
    Keystroke::parse(text).unwrap()
}

fn test_keystroke(matcher: &mut Matcher, text: &str, path: Vec<(usize, Context)>) -> Option<Action> {
    match matcher.push_keystroke(key(text), path) {
        MatchResult::Match { action, .. } => Some(action),
        _ => None,
    }
}

#[test]
fn test_push_keystroke() {
    let dispatch_path = || vec![(2, context("2")), (1, context("1"))];

    let keymap = Keymap::new(vec![
        Binding::new("a b", action("AB"), Some("1")),
        Binding::new("b", action("B"), Some("2")),
        Binding::new("c", action("C"), Some("2")),
    ]);

    let mut matcher = Matcher::new(keymap);

    assert_eq!(MatchResult::Pending, matcher.push_keystroke(key("a"), dispatch_path()));
    assert_eq!(
        MatchResult::Match { view_id: 1, action: action("AB") },
        matcher.push_keystroke(key("b"), dispatch_path())
    );
    assert!(!matcher.has_pending_keystrokes());
    assert_eq!(
        MatchResult::Match { view_id: 2, action: action("B") },
        matcher.push_keystroke(key("b"), dispatch_path())
    );
    assert!(!matcher.has_pending_keystrokes());
    assert_eq!(MatchResult::Pending, matcher.push_keystroke(key("a"), dispatch_path()));
    assert_eq!(MatchResult::NoMatch, matcher.push_keystroke(key("c"), dispatch_path()));
    assert!(!matcher.has_pending_keystrokes());
}

#[test]
fn test_keystroke_parsing() {
    assert_eq!(
        Keystroke::parse("ctrl-p").unwrap(),
        Keystroke {
            key: "p".into(),
            ctrl: true,
            alt: false,
            shift: false,
            cmd: false,
            function: false,
        }
    );

    assert_eq!(
        Keystroke::parse("alt-shift-down").unwrap(),
        Keystroke {
            key: "down".into(),
            ctrl: false,
            alt: true,
            shift: true,
            cmd: false,
            function: false,
        }
    );

    assert_eq!(
        Keystroke::parse("shift-cmd--").unwrap(),
        Keystroke {
            key: "-".into(),
            ctrl: false,
            alt: false,
            shift: true,
            cmd: true,
            function: false,
        }
    );
}

#[test]
fn keystrokes_that_name_nothing() {
    let error = Keystroke::parse("ctrl").unwrap_err();
    assert_eq!(error.message(), "Invalid keystroke `ctrl`");
    assert!(Keystroke::parse("a-b").is_err());
    assert_eq!(key("ctrl-").key, "");
    assert_eq!(key("").key, "");
    assert_eq!(key("q-").key, "-");
}

#[test]
fn keystrokes_know_their_modifiers() {
    assert!(key("ctrl-p").modified());
    assert!(!key("p").modified());
    assert!(key("ctrl-p").same(&key("ctrl-p")));
    assert!(!key("ctrl-p").same(&key("alt-p")));
    assert_eq!(key("fn-f1").function, true);
}

#[test]
fn test_context_predicate_parsing() {
    assert_eq!(
        ContextPredicate::parse("a && (b == c || d != e)").unwrap(),
        ContextPredicate::And(
            Box::new(ContextPredicate::Identifier("a".into())),
            Box::new(ContextPredicate::Or(
                Box::new(ContextPredicate::Equal("b".into(), "c".into())),
                Box::new(ContextPredicate::NotEqual("d".into(), "e".into())),
            ))
        )
    );

    assert_eq!(
        ContextPredicate::parse("!a").unwrap(),
        ContextPredicate::Not(Box::new(ContextPredicate::Identifier("a".into())))
    );
}

#[test]
fn predicates_that_cannot_be_read() {
    let error = ContextPredicate::parse("a &&").unwrap_err();
    assert_eq!(error.message(), "error parsing context predicate");
    assert!(ContextPredicate::parse("(a").is_err());
    assert!(ContextPredicate::parse("").is_err());
}

#[test]
fn test_context_predicate_eval() {
    let predicate = ContextPredicate::parse("a && b || c == d").unwrap();

    let mut context = Context::default();
    context.set.insert("a".into());
    assert!(!predicate.eval(&context));

    context.set.insert("b".into());
    assert!(predicate.eval(&context));

    context.set.remove("b");
    context.map.insert("c".into(), "x".into());
    assert!(!predicate.eval(&context));

    context.map.insert("c".into(), "d".into());
    assert!(predicate.eval(&context));

    let predicate = ContextPredicate::parse("!a").unwrap();
    assert!(predicate.eval(&Context::default()));
}

#[test]
fn predicates_name_identifiers() {
    let predicate = ContextPredicate::parse("a && !b || c == d").unwrap();
    assert!(predicate.contains_identifier("a"));
    assert!(predicate.contains_identifier("b"));
    assert!(!predicate.contains_identifier("e"));
}

#[test]
fn contexts_are_extended() {
    let mut outer = context("a");
    outer.map.insert("k".into(), "1".into());
    let mut inner = context("b");
    inner.map.insert("k".into(), "2".into());
    outer.extend(&inner);
    assert!(outer.set.contains("a"));
    assert!(outer.set.contains("b"));
    assert_eq!(outer.map.get("k"), Some(&"2".to_string()));
}

#[test]
fn test_matcher() {
    let keymap = Keymap::new(vec![
        Binding::new("a", action_with("A", "x"), Some("a")),
        Binding::new("b", action("B"), Some("a")),
        Binding::new("a b", action("Ab"), Some("a || b")),
    ]);

    let ctx_a = || context("a");
    let ctx_b = || context("b");

    let mut matcher = Matcher::new(keymap);

    // Basic match
    assert_eq!(
        test_keystroke(&mut matcher, "a", vec![(1, ctx_a())]),
        Some(action_with("A", "x"))
    );

    // Multi-keystroke match
    assert!(test_keystroke(&mut matcher, "a", vec![(1, ctx_b())]).is_none());
    assert_eq!(test_keystroke(&mut matcher, "b", vec![(1, ctx_b())]), Some(action("Ab")));

    // Failed matches don't interfere with matching subsequent keys
    assert!(test_keystroke(&mut matcher, "x", vec![(1, ctx_a())]).is_none());
    assert_eq!(
        test_keystroke(&mut matcher, "a", vec![(1, ctx_a())]),
        Some(action_with("A", "x"))
    );

    // Pending keystrokes are cleared when the context changes
    assert!(test_keystroke(&mut matcher, "a", vec![(1, ctx_b())]).is_none());
    assert_eq!(test_keystroke(&mut matcher, "b", vec![(1, ctx_a())]), Some(action("B")));

    let ctx_c = || context("c");

    // Pending keystrokes are maintained per-view
    assert!(
        test_keystroke(&mut matcher, "a", vec![(1, ctx_b()), (2, ctx_c())]).is_none()
    );
    assert_eq!(test_keystroke(&mut matcher, "b", vec![(1, ctx_b())]), Some(action("Ab")));
}

#[test]
fn bindings_are_found_by_action() {
    let mut keymap = Keymap::new(vec![
        Binding::new("a", action("A"), None),
        Binding::new("b c", action("B"), Some("x")),
    ]);
    keymap.add_bindings(vec![Binding::new("d", action("A"), None)]);
    let found = keymap.bindings_for_action_type("A");
    assert_eq!(found.len(), 2);
    assert_eq!(found[0].keystrokes()[0].key, "a");
    assert_eq!(found[1].keystrokes()[0].key, "d");
    let found = keymap.bindings_for_action_type("B");
    assert_eq!(found[0].keystrokes().len(), 2);
    assert!(found[0].context_contains_identifier("x"));
    assert_eq!(found[0].action().name, "B");

    let matcher = Matcher::new(keymap);
    let keys = matcher.keystrokes_for_action(&action("A"), &Context::default()).unwrap();
    assert_eq!(keys.len(), 1);
    assert_eq!(keys[0].key, "d");
    assert!(matcher.keystrokes_for_action(&action("B"), &Context::default()).is_none());
    let available = matcher.available_bindings(1, &context("x"));
    assert_eq!(available.len(), 3);
}

#[test]
fn bindings_that_cannot_be_read() {
    let error = Binding::load("q cmd", action("A"), None).err().unwrap();
    assert_eq!(error.message(), "Invalid keystroke `cmd`");
    let error = Binding::load("q", action("A"), Some("&&")).err().unwrap();
    assert_eq!(error.message(), "error parsing context predicate");
}

#[test]
fn changing_bindings_forgets_what_is_pending() {
    let mut matcher = Matcher::new(Keymap::new(vec![Binding::new("a b", action("Ab"), None)]));
    assert_eq!(
        matcher.push_keystroke(key("a"), vec![(1, Context::default())]),
        MatchResult::Pending
    );
    assert!(matcher.has_pending_keystrokes());
    matcher.add_bindings(vec![Binding::new("c", action("C"), None)]);
    assert!(!matcher.has_pending_keystrokes());
    matcher.clear_bindings();
    assert_eq!(
        matcher.push_keystroke(key("c"), vec![(1, Context::default())]),
        MatchResult::NoMatch
    );
    matcher.set_keymap(Keymap::new(vec![Binding::new("d e", action("De"), None)]));
    assert_eq!(
        matcher.push_keystroke(key("d"), vec![(1, Context::default())]),
        MatchResult::Pending
    );
    matcher.set_keymap(Keymap::new(vec![]));
    assert!(!matcher.has_pending_keystrokes());
}
