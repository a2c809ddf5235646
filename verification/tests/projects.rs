use editor_core::participant::{LocationMessage, LocationVariant, ParticipantLocation};
use editor_core::project_search::{
    existing_search, on_focus, should_update_tab_on_event, sort_by_file, status_text, tab,
    tab_title, toggle_focus, ActiveQuery, FocusTarget, ProjectSearch, ProjectSearchBar,
    ProjectSearchView, SearchOption, SearchOptions, ToolbarItemLocation, ViewEvent,
};
use editor_core::project_settings::{GitGutterSetting, GitSettings};
use editor_core::search::{char_kind, CharKind, RegexRefusal, SearchQuery};
use editor_core::seed::{
    channel_step, member_steps, message_times, org_slug, org_step, user_step, users_uri, zed_users,
    ChannelStep, GitHubUser, MemberStep, OrgStep, UserPages, UserStep, MAX_OFFSET,
};

fn regex(query: &str, whole_word: bool, case_sensitive: bool) -> SearchQuery {
    SearchQuery::regex(query, whole_word, case_sensitive).unwrap()
}

#[test]
fn plain_texts_are_found() {
    let query = SearchQuery::text("TWO".to_string(), false, false);
    assert_eq!(query.search("const TWO: usize = two::TWO;"), vec![(6, 9), (19, 22), (24, 27)]);
    let query = SearchQuery::text("TWO".to_string(), false, true);
    assert_eq!(query.search("const TWO: usize = two::TWO;"), vec![(6, 9), (24, 27)]);
    assert_eq!(query.detect(b"xx TWO".to_vec()), Ok(true));
    assert_eq!(query.detect(b"xx two".to_vec()), Ok(false));
    let query = SearchQuery::text("aa".to_string(), false, true);
    assert_eq!(query.search("aaaa a"), vec![(0, 2), (2, 4)]);
}

#[test]
fn empty_texts_are_found_everywhere() {
    let query = SearchQuery::text(String::new(), false, true);
    assert_eq!(query.search("ab"), vec![(0, 0), (1, 1), (2, 2)]);
    assert_eq!(query.search(""), vec![(0, 0)]);
    assert_eq!(query.detect(vec![]), Ok(true));
    let long = "x".repeat(200_000);
    assert_eq!(
        query.search(&long),
        (0..=200_000).map(|offset| (offset, offset)).collect::<Vec<_>>()
    );
}

#[test]
fn texts_are_found_in_long_files() {
    let query = SearchQuery::text("needle".to_string(), false, true);
    for offset in [65_530, 65_533, 65_536, 131_070] {
        let text = format!("{}needle{}", "x".repeat(offset), "n".repeat(70_000));
        assert_eq!(query.search(&text), vec![(offset, offset + 6)]);
    }
}

#[test]
fn whole_words_are_found() {
    let query = SearchQuery::text("one".to_string(), true, true);
    assert_eq!(query.search("one bone one_ +one+ \u{e9}one"), vec![(0, 3), (15, 18)]);
    assert_eq!(regex("o.e", true, true).search("one bone"), vec![(0, 3)]);
}

#[test]
fn regular_expressions_are_found() {
    assert_eq!(regex("^b", false, true).search("ab\nb\nB"), vec![(3, 4)]);
    assert_eq!(regex("^b", false, false).search("ab\nb\nB"), vec![(3, 4), (5, 6)]);
    assert_eq!(regex("b\\nB", false, true).search("ab\nb\nB"), vec![(3, 6)]);
    assert_eq!(regex("^b", false, true).detect(b"ab\r\nb".to_vec()), Ok(true));
    assert_eq!(regex("x\\n", false, true).detect(b"x\n".to_vec()), Ok(true));
    assert!(regex("x\\n", false, true).detect(vec![0xff]).is_err());
    let refused = SearchQuery::regex("(", true, true).err().unwrap();
    assert_eq!(refused.pattern, "\\b(\\b");
    assert_eq!(refused.refusal, RegexRefusal::Grammar);
    let refused = SearchQuery::regex("(\\w{1000}){1000}", false, true).err().unwrap();
    assert_eq!(refused.refusal, RegexRefusal::TooBig);
}

#[test]
fn characters_have_kinds() {
    assert_eq!(char_kind('\n'), CharKind::Newline);
    assert_eq!(char_kind(' '), CharKind::Whitespace);
    assert_eq!(char_kind('_'), CharKind::Word);
    assert_eq!(char_kind('\u{e9}'), CharKind::Word);
    assert_eq!(char_kind('+'), CharKind::Punctuation);
}

fn options(whole_word: bool, case_sensitive: bool, regex: bool) -> SearchOptions {
    SearchOptions { whole_word, case_sensitive, regex }
}

#[test]
fn searches_run_and_finish() {
    let mut search = ProjectSearch::new();
    assert_eq!(status_text(true, &search), Some(""));
    assert_eq!(status_text(false, &search), Some("No results"));
    search.search(ActiveQuery { text: "TWO".to_string(), options: options(true, false, false) });
    assert_eq!(status_text(false, &search), Some("Searching..."));
    search.finish(None);
    assert_eq!(status_text(false, &search), Some("Searching..."));
    search.finish(Some(vec![(32, 35), (37, 40), (6, 9)]));
    assert_eq!(status_text(false, &search), None);
    assert_eq!(search.match_ranges().len(), 3);
    assert_eq!(search.duplicate().match_ranges(), search.match_ranges());

    let mut view = ProjectSearchView::new(&search);
    assert_eq!(view.query, "TWO");
    assert!(view.options.is_enabled(SearchOption::WholeWord));
    assert!(view.update_match_index(Some(0)));
    assert!(!view.update_match_index(Some(0)));
    assert_eq!(view.match_label(&search), Some("1/3".to_string()));
    assert!(view.model_changed(&search, true));
    assert_eq!(view.active_match_index, Some(0));
    assert!(!view.model_changed(&ProjectSearch::default(), true));
    assert_eq!(view.active_match_index, None);
    assert_eq!(view.match_label(&search), None);
}

#[test]
fn queries_are_built_from_the_view() {
    let search = ProjectSearch::new();
    let mut view = ProjectSearchView::new(&search);
    view.query = "a(".to_string();
    view.options.toggle(SearchOption::CaseSensitive);
    assert!(matches!(
        view.build_search_query(),
        Some(SearchQuery::Text { query, whole_word: false, case_sensitive: true }) if query == "a("
    ));
    view.options.toggle(SearchOption::Regex);
    assert!(view.build_search_query().is_none());
    assert!(view.query_contains_error);
    view.query = "a+".to_string();
    assert!(matches!(
        view.build_search_query(),
        Some(SearchQuery::Regex { multiline: false, .. })
    ));

    let mut old = ProjectSearch::new();
    old.search(ActiveQuery { text: "old".to_string(), options: options(true, true, false) });
    view.restore(&old);
    assert_eq!(view.query, "old");
    assert_eq!(view.options, options(true, true, false));
    view.restore(&ProjectSearch::new());
    assert_eq!(view.query, "old");
}

#[test]
fn tabs_show_the_query() {
    assert_eq!(tab_title("short"), "short");
    assert_eq!(tab_title("123456789012345678901234"), "123456789012345678901234");
    assert_eq!(tab_title("1234567890123456789012345"), "123456789012345678901234\u{2026}");
    assert_eq!(
        tab_title("\u{3b1}\u{3b1}\u{3b1}\u{3b1}\u{3b1}\u{3b1}\u{3b1}\u{3b1}\u{3b1}\u{3b1}\u{3b1}\u{3b1}x"),
        "\u{3b1}\u{3b1}\u{3b1}\u{3b1}\u{3b1}\u{3b1}\u{3b1}\u{3b1}\u{3b1}\u{3b1}\u{3b1}\u{3b1}\u{2026}"
    );
    assert!(should_update_tab_on_event(&ViewEvent::UpdateTab));
}

#[test]
fn the_focus_goes_between_query_and_results() {
    let empty = ProjectSearch::new();
    let mut full = ProjectSearch::new();
    full.finish(Some(vec![(0, 1)]));
    assert_eq!(on_focus(&empty), FocusTarget::QueryEditor);
    assert_eq!(on_focus(&full), FocusTarget::ResultsEditor);
    assert_eq!(toggle_focus(None, true), FocusTarget::PassedOn);
    assert_eq!(toggle_focus(Some(&empty), false), FocusTarget::QueryEditor);
    assert_eq!(toggle_focus(Some(&empty), true), FocusTarget::Unchanged);
    assert_eq!(toggle_focus(Some(&full), true), FocusTarget::ResultsEditor);
    assert_eq!(tab(Some(&full), true), FocusTarget::ResultsEditor);
    assert_eq!(tab(Some(&full), false), FocusTarget::PassedOn);
    assert_eq!(tab(Some(&empty), true), FocusTarget::Unchanged);
    assert_eq!(tab(None, true), FocusTarget::PassedOn);
}

#[test]
fn open_searches_are_shown_again() {
    assert_eq!(existing_search(&vec![4, 5], Some(5)), Some(5));
    assert_eq!(existing_search(&vec![4, 5], Some(6)), Some(4));
    assert_eq!(existing_search(&vec![4, 5], None), Some(4));
    assert_eq!(existing_search(&vec![], Some(6)), None);
    let mut bar = ProjectSearchBar::new();
    assert_eq!(bar.set_active_pane_item(Some(3)), ToolbarItemLocation::PrimaryLeft);
    assert_eq!(bar.active_project_search(), Some(3));
    assert_eq!(bar.set_active_pane_item(None), ToolbarItemLocation::Hidden);
}

fn parts(path: &str) -> Option<Vec<String>> {
    Some(path.split('/').map(|part| part.to_string()).collect())
}

#[test]
fn files_are_sorted_by_path() {
    let paths = vec![
        parts("two.rs"),
        parts("three.rs"),
        None,
        parts("a/z"),
        parts("a-b"),
        parts("three.rs"),
    ];
    assert_eq!(sort_by_file(&paths), vec![2, 3, 4, 1, 5, 0]);
}

#[test]
fn gutter_settings_have_names() {
    assert_eq!(GitGutterSetting::default(), GitGutterSetting::TrackedFiles);
    assert_eq!(GitGutterSetting::TrackedFiles.name(), "tracked_files");
    assert_eq!(GitGutterSetting::from_name("hide"), Some(GitGutterSetting::Hide));
    assert_eq!(GitGutterSetting::from_name("Hide"), None);
    assert_eq!(GitSettings::default().git_gutter, None);
}

#[test]
fn participants_are_located() {
    let message = |variant| Some(LocationMessage { variant });
    assert_eq!(
        ParticipantLocation::from_proto(message(Some(LocationVariant::SharedProject { id: 3 }))),
        Ok(ParticipantLocation::SharedProject { project_id: 3 })
    );
    assert_eq!(
        ParticipantLocation::from_proto(message(Some(LocationVariant::UnsharedProject))),
        Ok(ParticipantLocation::UnsharedProject)
    );
    assert_eq!(
        ParticipantLocation::from_proto(message(Some(LocationVariant::External))),
        Ok(ParticipantLocation::External)
    );
    assert_eq!(
        ParticipantLocation::from_proto(message(None)).unwrap_err().message(),
        "participant location was not provided"
    );
    assert!(ParticipantLocation::from_proto(None).is_err());
}

#[test]
fn users_come_in_pages() {
    assert_eq!(users_uri(None), "https://api.github.com/users?per_page=100");
    let mut pages = UserPages::new(zed_users());
    assert_eq!(pages.next_uri().unwrap(), users_uri(None));
    pages.take_page(&vec![
        GitHubUser { id: 7, login: "a".to_string() },
        GitHubUser { id: 46, login: "b".to_string() },
    ]);
    assert_eq!(
        pages.next_uri().unwrap(),
        "https://api.github.com/users?per_page=100&since=46"
    );
    pages.take_page(&vec![]);
    assert_eq!(pages.next_uri(), None);
    let users = pages.users();
    assert_eq!(users.len(), 8);
    assert_eq!(users[0].login, "nathansobo");
    assert_eq!(users[0].email.as_deref(), Some("nathan@zed.dev"));
    assert_eq!(users[5].login, "Kethku");
    assert_eq!(users[5].email.as_deref(), Some("keith@zed.dev"));
    assert_eq!(users[6].login, "a");
    assert_eq!(users[6].email, None);
    assert_eq!(users[7].login, "b");
}

#[test]
fn users_are_added_once() {
    let mut users = zed_users();
    let last = users.remove(2);
    assert!(matches!(user_step(last, Some(9)), UserStep::Keep { id: 9 }));
    match user_step(users.remove(2), None) {
        UserStep::Create { login, email, admin } => {
            assert_eq!(login, "iamnbutler");
            assert_eq!(email.as_deref(), Some("nate@zed.dev"));
            assert!(admin);
        }
        UserStep::Keep { .. } => panic!("nobody has that name"),
    }
}

#[test]
fn the_organisation_is_added_once() {
    assert_eq!(org_slug(), "zed");
    assert!(matches!(org_step(Some(4)), OrgStep::Keep { id: 4 }));
    match org_step(None) {
        OrgStep::Create { name, slug } => assert_eq!((name.as_str(), slug.as_str()), ("Zed", "zed")),
        OrgStep::Keep { .. } => panic!("there is none"),
    }
}

#[test]
fn the_channel_is_added_once() {
    let channels = vec![
        (3, "general".to_string()),
        (5, "General".to_string()),
        (7, "General".to_string()),
    ];
    assert!(matches!(channel_step(&channels), ChannelStep::Keep { id: 5 }));
    match channel_step(&vec![(3, "general".to_string())]) {
        ChannelStep::Create { name, message_count } => {
            assert_eq!((name.as_str(), message_count), ("General", 1000));
        }
        ChannelStep::Keep { .. } => panic!("there is none"),
    }
    assert!(matches!(channel_step(&vec![]), ChannelStep::Create { .. }));
}

#[test]
fn messages_lie_in_the_past() {
    assert_eq!(message_times(100, &vec![10, 40, 0, 40, 25]), vec![60, 60, 75, 90, 100]);
    assert_eq!(message_times(5, &vec![MAX_OFFSET]), vec![5 - 8_640_000_000_000_000]);
    assert_eq!(message_times(5, &vec![]), Vec::<i128>::new());
}

#[test]
fn everybody_is_an_administrator() {
    assert_eq!(
        member_steps(1, 2, &vec![8, 9]),
        vec![
            MemberStep::Org { org_id: 1, user_id: 8, admin: true },
            MemberStep::Channel { channel_id: 2, user_id: 8, admin: true },
            MemberStep::Org { org_id: 1, user_id: 9, admin: true },
            MemberStep::Channel { channel_id: 2, user_id: 9, admin: true },
        ]
    );
}
