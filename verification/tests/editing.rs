use editor_core::anchor::{Anchor, AnchorRange};
use editor_core::display_map::DisplayPoint;
use editor_core::editor_test::{
    assert_editor_selections, assert_editor_state, assert_highlights, insert_markers,
    keystroke_input, set_eq, sort_selections, test_file_name, HighlightMismatch, OffsetRange,
    Selection, SetEqError, StateMismatch,
};
use editor_core::hover_popover::{
    finish_hover, hide_hover, hover_at, next_step, show_hover, take_answer, HoverAnswer, HoverAt,
    HoverBlock, HoverPopover, HoverSite, HoverStage, HoverStart, HoverState, HoverStep, PopoverText,
    StyledRun, SyntaxRun,
};
use editor_core::keystroke::Keystroke;
use editor_core::link_go_to_definition::{
    cmd_changed, go_to_fetched_definition, hide_link_definition, take_definitions,
    update_go_to_definition_link, CmdChanged, GoToFetchedDefinition, LinkAction,
    LinkGoToDefinitionState, LinkJump, LinkSite, Location, LocationLink,
};
use editor_core::lsp_position::{to_lsp, to_lsp_range};
use editor_core::request::Position;

fn range(start: usize, end: usize) -> OffsetRange {
    OffsetRange { start, end }
}

fn selection(start: usize, end: usize, reversed: bool) -> Selection {
    Selection { start, end, reversed }
}

#[test]
fn anchors_have_sides() {
    assert!(Anchor::before(3).is_at_most(&Anchor::after(3)));
    assert!(!Anchor::after(3).is_at_most(&Anchor::before(3)));
}

const MILLI: u128 = 1_000_000;

fn site(offset: usize) -> HoverSite {
    HoverSite { offset, pending_rename: false, in_excerpt: true, has_project: true }
}

#[test]
fn popovers_show_code_and_prose() {
    let block = |language: Option<&str>| HoverBlock {
        text: "fn f".to_string(),
        language: language.map(|name| name.to_string()),
    };
    let popover = HoverPopover {
        anchor: Anchor::before(3),
        contents: vec![block(Some("Rust")), block(Some("Klingon")), block(None)],
    };
    let runs = vec![
        SyntaxRun { start: 0, end: 2, style: Some(7) },
        SyntaxRun { start: 2, end: 3, style: None },
        SyntaxRun { start: 3, end: 4, style: Some(1) },
    ];
    assert_eq!(
        popover.render(&vec![Some(runs.clone()), None, Some(runs)]),
        vec![
            PopoverText::Code {
                highlights: vec![
                    StyledRun { start: 0, end: 2, style: 7 },
                    StyledRun { start: 3, end: 4, style: 1 },
                ],
            },
            PopoverText::Prose,
            PopoverText::Prose,
        ]
    );
}

#[test]
fn hovers_wait_and_show() {
    let mut state = HoverState::new();
    let start = hover_at(
        &mut state,
        &HoverAt { point: Some(DisplayPoint::new(0, 4)) },
        &site(4),
        0,
    );
    let anchor = Anchor::before(4);
    assert_eq!(start, (HoverStart::Request { anchor, delayed: true }, false));
    assert!(state.task);
    assert_eq!(
        next_step(true, HoverStage::Started),
        HoverStep::StartDelays { request_millis: 250, total_millis: 500 }
    );
    assert_eq!(next_step(true, HoverStage::RequestDelayPassed), HoverStep::Ask);
    assert_eq!(next_step(true, HoverStage::Answered), HoverStep::AwaitDelay);
    assert_eq!(next_step(true, HoverStage::DelayPassed), HoverStep::Show);
    assert_eq!(next_step(false, HoverStage::Started), HoverStep::Ask);
    assert_eq!(next_step(false, HoverStage::Answered), HoverStep::Show);

    let symbol = AnchorRange { start: Anchor::before(2), end: Anchor::before(6) };
    let answer = HoverAnswer {
        contents: vec![HoverBlock { text: "docs".to_string(), language: None }],
        range: Some(symbol),
    };
    let popover = take_answer(&mut state, anchor, Some(answer));
    assert_eq!(popover.as_ref().unwrap().anchor, Anchor::before(2));
    let effect = finish_hover(&mut state, popover, 10 * MILLI);
    assert_eq!(effect.highlight, Some(symbol));
    assert!(effect.notify && state.visible());

    assert!(hide_hover(&mut state, 20 * MILLI));
    assert!(!hide_hover(&mut state, 30 * MILLI));
    // Shortly after it was hidden, the next one does not wait.
    assert_eq!(
        show_hover(&mut state, &site(4), false, 100 * MILLI),
        HoverStart::Request { anchor, delayed: false }
    );
    // A place is asked about once, until the popover is hidden.
    assert_eq!(state.triggered_from, Some(anchor));
    assert_eq!(show_hover(&mut state, &site(4), false, 150 * MILLI), HoverStart::Nothing);
    hide_hover(&mut state, 200 * MILLI);
    assert_eq!(
        show_hover(&mut state, &site(4), false, 900 * MILLI),
        HoverStart::Request { anchor, delayed: true }
    );
    assert_eq!(show_hover(&mut state, &site(4), true, 900 * MILLI), HoverStart::Nothing);
    hide_hover(&mut state, 950 * MILLI);
    assert_eq!(
        show_hover(&mut state, &site(4), true, 960 * MILLI),
        HoverStart::Request { anchor, delayed: false }
    );
    state.symbol_range = Some(symbol);
    assert_eq!(show_hover(&mut state, &site(5), false, 900 * MILLI), HoverStart::Nothing);
    state.triggered_from = Some(Anchor::before(9));
    assert_eq!(show_hover(&mut state, &site(9), false, 900 * MILLI), HoverStart::Nothing);
    let renaming = HoverSite { pending_rename: true, ..site(1) };
    assert_eq!(show_hover(&mut state, &renaming, true, 0), HoverStart::Nothing);
    assert_eq!(
        hover_at(&mut state, &HoverAt { point: None }, &site(0), 0),
        (HoverStart::Nothing, false)
    );
}

#[test]
fn answers_without_contents_show_nothing() {
    let mut state = HoverState::default();
    assert!(take_answer(&mut state, Anchor::before(1), None).is_none());
    let empty = HoverAnswer { contents: vec![], range: None };
    assert!(take_answer(&mut state, Anchor::before(1), Some(empty)).is_none());
    let effect = finish_hover(&mut state, None, 5);
    assert_eq!(effect.highlight, None);
}

const OPEN: LinkSite = LinkSite { pending_rename: false, in_excerpt: true, has_project: true };

#[test]
fn links_follow_the_mouse_and_the_key() {
    let mut state = LinkGoToDefinitionState::default();
    let place = Anchor::before(4);
    assert_eq!(
        update_go_to_definition_link(&mut state, Some(place), true, &OPEN),
        LinkAction::Request { from: place }
    );
    assert_eq!(
        update_go_to_definition_link(&mut state, Some(place), true, &OPEN),
        LinkAction::Nothing
    );
    let symbol = AnchorRange { start: Anchor::before(3), end: Anchor::before(6) };
    let word = AnchorRange { start: Anchor::before(4), end: Anchor::before(5) };
    let text = b"abcdefghijklmnop".to_vec();
    let target = Location { buffer: 1, start: 10, end: 12 };
    let effect = take_definitions(
        &mut state,
        Some(vec![LocationLink { origin: Some(symbol), target }]),
        1,
        &text,
        4,
        word,
    );
    assert_eq!(effect.highlight, Some(symbol));
    // Within the symbol nothing is asked again.
    assert_eq!(
        update_go_to_definition_link(&mut state, Some(Anchor::before(5)), true, &OPEN),
        LinkAction::Nothing
    );
    assert_eq!(
        cmd_changed(&mut state, &CmdChanged { cmd_down: false }, &OPEN),
        LinkAction::ClearHighlights { notify: true }
    );
    assert_eq!(
        cmd_changed(&mut state, &CmdChanged { cmd_down: true }, &OPEN),
        LinkAction::Request { from: Anchor::before(5) }
    );
    // A definition around the place itself is no link.
    let here = Location { buffer: 1, start: 4, end: 6 };
    let effect = take_definitions(
        &mut state,
        Some(vec![LocationLink { origin: None, target: here }]),
        1,
        &text,
        5,
        word,
    );
    assert_eq!(effect.highlight, None);
    assert_eq!(
        hide_link_definition(&mut state),
        LinkAction::ClearHighlights { notify: false }
    );
    let renaming = LinkSite { pending_rename: true, ..OPEN };
    assert_eq!(
        update_go_to_definition_link(&mut state, Some(Anchor::before(9)), true, &renaming),
        LinkAction::Nothing
    );
}

#[test]
fn clicks_follow_links() {
    let mut state = LinkGoToDefinitionState::default();
    let click = GoToFetchedDefinition { point: DisplayPoint::new(1, 2) };
    let (jump, _) = go_to_fetched_definition(&mut state, &click);
    assert!(matches!(
        jump,
        LinkJump::SelectAndAsk { point } if point == DisplayPoint::new(1, 2)
    ));
    state.definitions.push(LocationLink {
        origin: None,
        target: Location { buffer: 2, start: 0, end: 1 },
    });
    let (jump, action) = go_to_fetched_definition(&mut state, &click);
    assert!(matches!(jump, LinkJump::Navigate { definitions } if definitions.len() == 1));
    assert_eq!(action, LinkAction::ClearHighlights { notify: true });
}

#[test]
fn selections_are_compared() {
    let text = b"one two".to_vec();
    let all = vec![selection(0, 0, false), selection(4, 7, true), selection(1, 3, false)];
    let sorted = sort_selections(&all);
    assert_eq!(sorted.empty, vec![range(0, 0)]);
    assert_eq!(sorted.reverse, vec![range(4, 7)]);
    assert_eq!(sorted.forward, vec![range(1, 3)]);
    assert!(assert_editor_selections(&text, &all, &all).is_ok());
    let mismatch =
        assert_editor_selections(&text, &all, &vec![selection(0, 0, false)]).err().unwrap();
    assert!(!mismatch.extra);
    assert_eq!(mismatch.actual_selections, b"|one two".to_vec());
    assert_eq!(
        mismatch.heading(),
        "Editor is missing empty selection\nMissing Selection Location:"
    );
    let mismatch = assert_editor_selections(&text, &vec![], &all).err().unwrap();
    assert!(mismatch.extra);
    assert_eq!(mismatch.location_text, b"|one two".to_vec());
    assert_eq!(mismatch.asserted_selections, b"one two".to_vec());
    assert_eq!(mismatch.heading(), "Editor has extra selection\nExtra Selection Location:");
}

#[test]
fn the_state_of_an_editor_is_compared() {
    let text = b"one two".to_vec();
    let marked = b"|one {two]".to_vec();
    let expected = sort_selections(&vec![selection(0, 0, false), selection(4, 7, true)]);
    assert!(assert_editor_state(marked.clone(), &text, &expected, &text, &expected).is_ok());
    assert!(matches!(
        assert_editor_state(marked.clone(), &text, &expected, &b"one".to_vec(), &sort_selections(&vec![])),
        Err(StateMismatch::Text)
    ));
    let actual = sort_selections(&vec![selection(0, 0, false)]);
    match assert_editor_state(marked.clone(), &text, &expected, &text, &actual) {
        Err(StateMismatch::Selections(mismatch)) => {
            assert!(!mismatch.extra);
            assert_eq!(mismatch.asserted_selections, marked);
            assert_eq!(mismatch.actual_selections, b"|one two".to_vec());
            assert_eq!(mismatch.location_text, b"one {two]".to_vec());
        }
        _ => panic!("the selections differ"),
    }
}

#[test]
fn highlights_are_compared() {
    let text = b"one two".to_vec();
    let one = vec![range(0, 3)];
    assert_eq!(assert_highlights(&text, &one, &text, &one), Ok(()));
    assert_eq!(
        assert_highlights(&text, &one, &b"two one".to_vec(), &one),
        Err(HighlightMismatch::Text)
    );
    assert_eq!(
        assert_highlights(&text, &one, &text, &vec![]),
        Err(HighlightMismatch::Ranges(SetEqError::RightMissing(range(0, 3))))
    );
    assert_eq!(
        assert_highlights(&text, &vec![], &text, &one),
        Err(HighlightMismatch::Ranges(SetEqError::LeftMissing(range(0, 3))))
    );
}

#[test]
fn markers_show_selections() {
    assert_eq!(
        insert_markers(
            &b"one two".to_vec(),
            &vec![range(0, 0)],
            &vec![range(4, 7)],
            &vec![range(1, 3)],
        ),
        b"|o[ne} {two]".to_vec()
    );
}

#[test]
fn sets_of_ranges_are_compared() {
    let a = vec![range(0, 1), range(2, 3)];
    let b = vec![range(2, 3), range(0, 1)];
    assert_eq!(set_eq(&a, &b), Ok(()));
    assert!(matches!(
        set_eq(&a, &vec![range(0, 1)]),
        Err(SetEqError::LeftMissing(_)) | Err(SetEqError::RightMissing(_))
    ));
    assert!(set_eq(&vec![range(0, 1)], &a).is_err());
}

#[test]
fn keys_enter_text() {
    assert_eq!(keystroke_input(&Keystroke::parse("a").unwrap()), Some("a".to_string()));
    assert_eq!(keystroke_input(&Keystroke::parse("ctrl-a").unwrap()), None);
    assert_eq!(test_file_name(&vec!["rs".to_string()]), "file.rs");
    assert_eq!(test_file_name(&vec![]), "file.txt");
}

#[test]
fn offsets_are_told_to_servers() {
    let text: Vec<char> = "a\u{1f350}b\nc\u{3b1}d".chars().collect();
    assert_eq!(to_lsp(&text, 5), Position { line: 0, character: 3 });
    assert_eq!(to_lsp(&text, 7), Position { line: 1, character: 0 });
    assert_eq!(
        to_lsp_range(&text, 0, 10),
        (Position { line: 0, character: 0 }, Position { line: 1, character: 2 })
    );
}
