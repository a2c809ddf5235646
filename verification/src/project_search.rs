//! The search through a project, and the view that shows what it found.
use vstd::prelude::*;
use crate::copilot::bytes_len;
use crate::keystroke_order::{key_text_less, lemma_text_less, text_less};
use crate::search::{
    can_be_read, pattern_of, regex_source, spans_lines, InvalidRegex, SearchQuery,
};
use crate::text::{chars_of, decimal, decimal_text, text_of, texts};

verus! {

/// How many bytes of a query the title of a tab shows.
pub const MAX_TAB_TITLE_LEN: usize = 24;

/// What the view tells those who listen to it.
#[derive(Clone, Copy, Debug, PartialEq, Eq, Structural)]
pub enum ViewEvent {
    UpdateTab,
}

/// Whether the tab of a view has to be drawn again.
pub fn should_update_tab_on_event(event: &ViewEvent) -> (r: bool)
    ensures
        r == (*event is UpdateTab),
{
    match event {
        ViewEvent::UpdateTab => true,
    }
}

/// A setting of a search.
#[derive(Clone, Copy, Debug, PartialEq, Eq, Structural)]
pub enum SearchOption {
    WholeWord,
    CaseSensitive,
    Regex,
}

/// The settings of a search.
#[derive(Clone, Copy, Debug, PartialEq, Eq, Structural)]
pub struct SearchOptions {
    pub whole_word: bool,
    pub case_sensitive: bool,
    pub regex: bool,
}

/// Whether a setting is on.
pub open spec fn is_on(options: SearchOptions, option: SearchOption) -> bool {
    match option {
        SearchOption::WholeWord => options.whole_word,
        SearchOption::CaseSensitive => options.case_sensitive,
        SearchOption::Regex => options.regex,
    }
}

/// The settings with one of them changed over.
pub open spec fn toggled(options: SearchOptions, option: SearchOption) -> SearchOptions {
    match option {
        SearchOption::WholeWord => SearchOptions { whole_word: !options.whole_word, ..options },
        SearchOption::CaseSensitive => SearchOptions {
            case_sensitive: !options.case_sensitive,
            ..options
        },
        SearchOption::Regex => SearchOptions { regex: !options.regex, ..options },
    }
}

impl SearchOptions {
    /// Whether a setting is on.
    pub fn is_enabled(&self, option: SearchOption) -> (r: bool)
        ensures
            r == is_on(*self, option),
    {
        match option {
            SearchOption::WholeWord => self.whole_word,
            SearchOption::CaseSensitive => self.case_sensitive,
            SearchOption::Regex => self.regex,
        }
    }

    /// Changes a setting over.
    pub fn toggle(&mut self, option: SearchOption)
        ensures
            *final(self) == toggled(*old(self), option),
    {
        match option {
            SearchOption::WholeWord => {
                self.whole_word = !self.whole_word;
            },
            SearchOption::CaseSensitive => {
                self.case_sensitive = !self.case_sensitive;
            },
            SearchOption::Regex => {
                self.regex = !self.regex;
            },
        }
    }
}

impl Default for SearchOptions {
    fn default() -> (r: Self)
        ensures
            r == (SearchOptions { whole_word: false, case_sensitive: false, regex: false }),
    {
        SearchOptions { whole_word: false, case_sensitive: false, regex: false }
    }
}

/// A setting that is changed over twice is as it was, and no other setting changes.
pub proof fn toggling_twice_is_nothing(
    options: SearchOptions,
    option: SearchOption,
    other: SearchOption,
)
    ensures
        toggled(toggled(options, option), option) == options,
        is_on(toggled(options, option), option) == !is_on(options, option),
        other != option ==> is_on(toggled(options, option), other) == is_on(options, other),
{
}

/// What was searched for: a text, with settings.
pub struct ActiveQuery {
    pub text: String,
    pub options: SearchOptions,
}

/// The meaning of such a query.
#[verifier::ext_equal]
pub struct ActiveQueryView {
    pub text: Seq<char>,
    pub options: SearchOptions,
}

impl View for ActiveQuery {
    type V = ActiveQueryView;

    open spec fn view(&self) -> ActiveQueryView {
        ActiveQueryView { text: self.text@, options: self.options }
    }
}

/// The search itself: what is searched for, what was found, and whether it goes on. Ranges are in
/// the list of excerpts.
pub struct ProjectSearch {
    active_query: Option<ActiveQuery>,
    match_ranges: Vec<(usize, usize)>,
    pending: bool,
}

/// The meaning of a search.
#[verifier::ext_equal]
pub struct ProjectSearchState {
    pub active_query: Option<ActiveQueryView>,
    pub match_ranges: Seq<(usize, usize)>,
    pub pending: bool,
}

impl View for ProjectSearch {
    type V = ProjectSearchState;

    closed spec fn view(&self) -> ProjectSearchState {
        ProjectSearchState {
            active_query: match self.active_query {
                Some(query) => Some(query@),
                None => None,
            },
            match_ranges: self.match_ranges@,
            pending: self.pending,
        }
    }
}

impl ProjectSearch {
    /// Nothing has been searched for.
    pub fn new() -> (r: ProjectSearch)
        ensures
            r@ == (ProjectSearchState {
                active_query: None,
                match_ranges: Seq::empty(),
                pending: false,
            }),
    {
        ProjectSearch { active_query: None, match_ranges: Vec::new(), pending: false }
    }

    /// Begins to search. What was found before is forgotten.
    pub fn search(&mut self, query: ActiveQuery)
        ensures
            final(self)@ == (ProjectSearchState {
                active_query: Some(query@),
                match_ranges: Seq::empty(),
                pending: true,
            }),
    {
        self.active_query = Some(query);
        self.match_ranges = Vec::new();
        self.pending = true;
    }

    /// The search is over, with the ranges that were found in each file, in the order of the files.
    /// A search that failed leaves everything as it is.
    pub fn finish(&mut self, found: Option<Vec<(usize, usize)>>)
        ensures
            final(self)@ == (match found {
                Some(ranges) => ProjectSearchState {
                    match_ranges: ranges@,
                    pending: false,
                    ..old(self)@
                },
                None => old(self)@,
            }),
    {
        if let Some(ranges) = found {
            self.match_ranges = ranges;
            self.pending = false;
        }
    }

    /// The ranges that were found.
    pub fn match_ranges(&self) -> (r: &Vec<(usize, usize)>)
        ensures
            r@ == self@.match_ranges,
    {
        &self.match_ranges
    }

    /// A copy that shows the same, without a search that goes on.
    pub fn duplicate(&self) -> (r: ProjectSearch)
        ensures
            r@ == (ProjectSearchState { pending: false, ..self@ }),
    {
        let active_query: Option<ActiveQuery> = match &self.active_query {
            Some(query) => Some(
                ActiveQuery { text: query.text.clone(), options: query.options },
            ),
            None => None,
        };
        let mut match_ranges: Vec<(usize, usize)> = Vec::new();
        let mut i: usize = 0;
        while i < self.match_ranges.len()
            invariant
                i <= self.match_ranges.len(),
                match_ranges@ == self.match_ranges@.take(i as int),
            decreases self.match_ranges.len() - i,
        {
            match_ranges.push(self.match_ranges[i]);
            i += 1;
            assert(match_ranges@ =~= self.match_ranges@.take(i as int));
        }
        assert(match_ranges@ =~= self.match_ranges@);
        ProjectSearch { active_query, match_ranges, pending: false }
    }
}

impl Default for ProjectSearch {
    fn default() -> (r: Self)
        ensures
            r@ == (ProjectSearchState {
                active_query: None,
                match_ranges: Seq::empty(),
                pending: false,
            }),
    {
        ProjectSearch::new()
    }
}

/// What is shown in place of results: nothing for an empty query, and otherwise whether the search
/// goes on. Where there are results, they are shown.
pub fn status_text(query_is_empty: bool, search: &ProjectSearch) -> (r: Option<&'static str>)
    ensures
        search@.match_ranges.len() > 0 <==> r is None,
        r matches Some(text) ==> text@ == if query_is_empty {
            ""@
        } else if search@.pending {
            "Searching..."@
        } else {
            "No results"@
        },
{
    if search.match_ranges.len() > 0 {
        None
    } else if query_is_empty {
        Some("")
    } else if search.pending {
        Some("Searching...")
    } else {
        Some("No results")
    }
}

proof fn lemma_bytes_grow(text: Seq<char>, i: int, j: int)
    requires
        0 <= i <= j <= text.len(),
    ensures
        bytes_len(text.take(j)) >= bytes_len(text.take(i)) + (j - i),
        bytes_len(text.take(i)) >= 0,
    decreases j,
{
    if j == 0 {
    } else if i < j {
        lemma_bytes_grow(text, i, j - 1);
        assert(text.take(j).drop_last() =~= text.take(j - 1));
    } else {
        lemma_bytes_grow(text, i - 1, j - 1);
        assert(text.take(j).drop_last() =~= text.take(j - 1));
    }
}

/// Whether a number of characters of a text takes up a number of bytes.
pub open spec fn prefix_has_bytes(text: Seq<char>, chars: int, bytes: int) -> bool {
    0 <= chars <= text.len() && bytes_len(text.take(chars)) == bytes
}

/// Whether a text is the title of the tab for a query: the query, cut after its first bytes if it is
/// longer.
pub open spec fn is_tab_title(query: Seq<char>, title: Seq<char>) -> bool {
    if bytes_len(query) > MAX_TAB_TITLE_LEN {
        exists|chars: int| #[trigger]
            prefix_has_bytes(query, chars, MAX_TAB_TITLE_LEN as int) && title == query.take(chars)
                + "…"@
    } else {
        title == query
    }
}

/// A query has one title.
pub proof fn tab_title_is_unique(query: Seq<char>, a: Seq<char>, b: Seq<char>)
    requires
        is_tab_title(query, a),
        is_tab_title(query, b),
    ensures
        a == b,
{
    if bytes_len(query) > MAX_TAB_TITLE_LEN {
        let m = MAX_TAB_TITLE_LEN as int;
        let i = choose|chars: int| #[trigger]
            prefix_has_bytes(query, chars, m) && a == query.take(chars) + "…"@;
        let j = choose|chars: int| #[trigger]
            prefix_has_bytes(query, chars, m) && b == query.take(chars) + "…"@;
        if i <= j {
            lemma_bytes_grow(query, i, j);
        } else {
            lemma_bytes_grow(query, j, i);
        }
    }
}

/// The title of the tab for a query. A longer query must not have a character across the place where
/// it is cut.
pub fn tab_title(query: &str) -> (r: String)
    requires
        bytes_len(query@) > MAX_TAB_TITLE_LEN ==> exists|chars: int| #[trigger]
            prefix_has_bytes(query@, chars, MAX_TAB_TITLE_LEN as int),
    ensures
        is_tab_title(query@, r@),
{
    let chars: Vec<char> = chars_of(query);
    let ghost text = query@;
    let mut i: usize = 0;
    let mut total: usize = 0;
    let mut cut: Option<usize> = None;
    while i < chars.len() && total <= MAX_TAB_TITLE_LEN
        invariant
            chars@ == text,
            i <= chars.len(),
            total == bytes_len(text.take(i as int)),
            total <= MAX_TAB_TITLE_LEN + 4,
            cut matches Some(k) ==> prefix_has_bytes(text, k as int, MAX_TAB_TITLE_LEN as int),
            cut is None ==> forall|k: int|
                0 <= k < i ==> !#[trigger] prefix_has_bytes(text, k, MAX_TAB_TITLE_LEN as int),
        decreases chars.len() - i,
    {
        assert(text.take(i as int).len() == i);
        if total == MAX_TAB_TITLE_LEN {
            assert(prefix_has_bytes(text, i as int, MAX_TAB_TITLE_LEN as int));
            cut = Some(i);
        }
        let n: u32 = chars[i] as u32;
        let size: usize = if n < 0x80 {
            1
        } else if n < 0x800 {
            2
        } else if n < 0x10000 {
            3
        } else {
            4
        };
        assert(text.take(i + 1).drop_last() =~= text.take(i as int));
        total += size;
        i += 1;
    }
    proof {
        assert(text.take(text.len() as int) =~= text);
        lemma_bytes_grow(text, i as int, text.len() as int);
    }
    if total > MAX_TAB_TITLE_LEN {
        match cut {
            Some(k) => {
                let mut title: String = text_of(&chars, 0, k);
                title.append("…");
                assert(chars@.subrange(0, k as int) =~= text.take(k as int));
                title
            },
            None => {
                proof {
                    let k = choose|k: int| #[trigger]
                        prefix_has_bytes(text, k, MAX_TAB_TITLE_LEN as int);
                    lemma_bytes_grow(text, i as int, k);
                    assert(false);
                }
                query.to_owned()
            },
        }
    } else {
        query.to_owned()
    }
}

/// The view of a search: the text in its query editor, its settings, whether the text is not a
/// regular expression though it should be one, and the match at which the cursor is.
pub struct ProjectSearchView {
    pub query: String,
    pub options: SearchOptions,
    pub query_contains_error: bool,
    pub active_match_index: Option<usize>,
}

impl ProjectSearchView {
    /// The view of a search. It shows what was searched for.
    pub fn new(search: &ProjectSearch) -> (r: ProjectSearchView)
        ensures
            match search@.active_query {
                Some(query) => r.query@ == query.text && r.options == query.options,
                None => r.query@ == ""@ && r.options == (SearchOptions {
                    whole_word: false,
                    case_sensitive: false,
                    regex: false,
                }),
            },
            !r.query_contains_error,
            r.active_match_index is None,
    {
        match &search.active_query {
            Some(query) => ProjectSearchView {
                query: query.text.clone(),
                options: query.options,
                query_contains_error: false,
                active_match_index: None,
            },
            None => ProjectSearchView {
                query: "".to_owned(),
                options: SearchOptions { whole_word: false, case_sensitive: false, regex: false },
                query_contains_error: false,
                active_match_index: None,
            },
        }
    }

    /// Takes what became of the text as a regular expression: one that is none is noted.
    pub fn take_regex(&mut self, result: Result<SearchQuery, InvalidRegex>) -> (r: Option<
        SearchQuery,
    >)
        ensures
            r == (match result {
                Ok(query) => Some(query),
                Err(_) => None,
            }),
            final(self).query_contains_error == (old(self).query_contains_error || result is Err),
            final(self).query == old(self).query,
            final(self).options == old(self).options,
            final(self).active_match_index == old(self).active_match_index,
    {
        match result {
            Ok(query) => Some(query),
            Err(_) => {
                self.query_contains_error = true;
                None
            },
        }
    }

    /// The query for the text and the settings. A text that should be a regular expression and is
    /// none is noted.
    pub fn build_search_query(&mut self) -> (r: Option<SearchQuery>)
        ensures
            final(self).query@ == old(self).query@,
            final(self).options == old(self).options,
            final(self).active_match_index == old(self).active_match_index,
            !old(self).options.regex ==> {
                &&& final(self).query_contains_error == old(self).query_contains_error
                &&& r matches Some(SearchQuery::Text { query, whole_word, case_sensitive })
                &&& query@ == old(self).query@
                &&& whole_word == old(self).options.whole_word
                &&& case_sensitive == old(self).options.case_sensitive
            },
            old(self).options.regex ==> {
                let pattern = pattern_of(old(self).query@, old(self).options.whole_word);
                match r {
                    Some(SearchQuery::Regex { multiline, regex }) => {
                        &&& can_be_read(
                            old(self).query@,
                            old(self).options.whole_word,
                            old(self).options.case_sensitive,
                        )
                        &&& final(self).query_contains_error == old(self).query_contains_error
                        &&& multiline == spans_lines(pattern)
                        &&& regex_source(regex) == (
                            pattern,
                            !old(self).options.case_sensitive,
                            multiline,
                        )
                    },
                    Some(_) => false,
                    None => final(self).query_contains_error,
                }
            },
    {
        let options: SearchOptions = self.options;
        if options.regex {
            let result: Result<SearchQuery, InvalidRegex> = SearchQuery::regex(
                self.query.as_str(),
                options.whole_word,
                options.case_sensitive,
            );
            self.take_regex(result)
        } else {
            let text: String = self.query.clone();
            Some(SearchQuery::text(text, options.whole_word, options.case_sensitive))
        }
    }

    /// The view gives its query to a new search and goes back to what it searched for itself.
    pub fn restore(&mut self, search: &ProjectSearch)
        ensures
            match search@.active_query {
                Some(query) => final(self).query@ == query.text && final(self).options
                    == query.options,
                None => final(self).query@ == old(self).query@ && final(self).options == old(
                    self,
                ).options,
            },
            final(self).query_contains_error == old(self).query_contains_error,
            final(self).active_match_index == old(self).active_match_index,
    {
        if let Some(query) = &search.active_query {
            self.query = query.text.clone();
            self.options = query.options;
        }
    }

    /// The search changed: without matches there is none at which the cursor is.
    pub fn model_changed(&mut self, search: &ProjectSearch, query_is_focused: bool) -> (r: bool)
        ensures
            final(self).active_match_index == (if search@.match_ranges.len() == 0 {
                None
            } else {
                old(self).active_match_index
            }),
            final(self).query == old(self).query,
            final(self).options == old(self).options,
            final(self).query_contains_error == old(self).query_contains_error,
            r == (search@.match_ranges.len() > 0 && query_is_focused),
    {
        if search.match_ranges.len() == 0 {
            self.active_match_index = None;
            false
        } else {
            query_is_focused
        }
    }

    /// The cursor moved to another match, or to none; tells whether that has to be shown.
    pub fn update_match_index(&mut self, new_index: Option<usize>) -> (notify: bool)
        ensures
            final(self).active_match_index == new_index,
            notify == (old(self).active_match_index != new_index),
            final(self).query == old(self).query,
            final(self).options == old(self).options,
            final(self).query_contains_error == old(self).query_contains_error,
    {
        let same: bool = match (self.active_match_index, new_index) {
            (Some(a), Some(b)) => a == b,
            (None, None) => true,
            _ => false,
        };
        self.active_match_index = new_index;
        !same
    }

    /// Which match of all is shown.
    pub fn match_label(&self, search: &ProjectSearch) -> (r: Option<String>)
        requires
            self.active_match_index matches Some(i) ==> i < usize::MAX,
        ensures
            match self.active_match_index {
                Some(i) => r matches Some(text) && text@ == decimal((i + 1) as nat) + "/"@
                    + decimal(search@.match_ranges.len()),
                None => r is None,
            },
    {
        match self.active_match_index {
            Some(i) => {
                let mut text: String = decimal_text(i + 1);
                text.append("/");
                text.append(decimal_text(search.match_ranges.len()).as_str());
                Some(text)
            },
            None => None,
        }
    }
}

/// Where the focus goes.
#[derive(Clone, Copy, Debug, PartialEq, Eq, Structural)]
pub enum FocusTarget {
    QueryEditor,
    ResultsEditor,
    Unchanged,
    PassedOn,
}

/// Where the focus goes when the view gets it.
pub fn on_focus(search: &ProjectSearch) -> (r: FocusTarget)
    ensures
        r == (if search@.match_ranges.len() == 0 {
            FocusTarget::QueryEditor
        } else {
            FocusTarget::ResultsEditor
        }),
{
    if search.match_ranges.len() == 0 {
        FocusTarget::QueryEditor
    } else {
        FocusTarget::ResultsEditor
    }
}

/// Where the focus goes when it is changed over: from the query to the results, if there are any,
/// and from anywhere else to the query. If no search is open, somebody else may want it.
pub fn toggle_focus(search: Option<&ProjectSearch>, query_is_focused: bool) -> (r: FocusTarget)
    ensures
        r == (match search {
            None => FocusTarget::PassedOn,
            Some(search) => if !query_is_focused {
                FocusTarget::QueryEditor
            } else if search@.match_ranges.len() > 0 {
                FocusTarget::ResultsEditor
            } else {
                FocusTarget::Unchanged
            },
        }),
{
    match search {
        None => FocusTarget::PassedOn,
        Some(search) => if !query_is_focused {
            FocusTarget::QueryEditor
        } else if search.match_ranges.len() > 0 {
            FocusTarget::ResultsEditor
        } else {
            FocusTarget::Unchanged
        },
    }
}

/// Where the focus goes with the tab key: from the query to the results, if there are any. Anywhere
/// else the key means something else.
pub fn tab(search: Option<&ProjectSearch>, query_is_focused: bool) -> (r: FocusTarget)
    ensures
        r == (match search {
            None => FocusTarget::PassedOn,
            Some(search) => if !query_is_focused {
                FocusTarget::PassedOn
            } else if search@.match_ranges.len() > 0 {
                FocusTarget::ResultsEditor
            } else {
                FocusTarget::Unchanged
            },
        }),
{
    match search {
        None => FocusTarget::PassedOn,
        Some(search) => if !query_is_focused {
            FocusTarget::PassedOn
        } else if search.match_ranges.len() > 0 {
            FocusTarget::ResultsEditor
        } else {
            FocusTarget::Unchanged
        },
    }
}

/// The search that is shown when one is asked for: the one that was active last if it is still open,
/// otherwise the first that is open. If none is, a new one is made.
pub fn existing_search(open: &Vec<usize>, active: Option<usize>) -> (r: Option<usize>)
    ensures
        r == (if active is Some && open@.contains(active->0) {
            active
        } else if open@.len() > 0 {
            Some(open@[0])
        } else {
            None
        }),
{
    if let Some(view) = active {
        let mut i: usize = 0;
        while i < open.len()
            invariant
                active == Some(view),
                i <= open.len(),
                forall|k: int| 0 <= k < i ==> open@[k] != view,
            decreases open.len() - i,
        {
            if open[i] == view {
                assert(open@[i as int] == view);
                return active;
            }
            i += 1;
        }
    }
    if open.len() > 0 {
        Some(open[0])
    } else {
        None
    }
}

/// Where the search bar is.
#[derive(Clone, Copy, Debug, PartialEq, Eq, Structural)]
pub enum ToolbarItemLocation {
    Hidden,
    PrimaryLeft,
}

/// The bar above a pane: it shows the search that is open in the pane.
pub struct ProjectSearchBar {
    active_project_search: Option<usize>,
}

impl ProjectSearchBar {
    /// The search that is shown.
    pub closed spec fn shown(self) -> Option<usize> {
        self.active_project_search
    }

    /// A bar that shows nothing.
    pub fn new() -> (r: ProjectSearchBar)
        ensures
            r.shown() is None,
    {
        ProjectSearchBar { active_project_search: None }
    }

    /// Another item is open in the pane, which may be a search.
    pub fn set_active_pane_item(&mut self, search: Option<usize>) -> (r: ToolbarItemLocation)
        ensures
            final(self).shown() == search,
            r == (if search is Some {
                ToolbarItemLocation::PrimaryLeft
            } else {
                ToolbarItemLocation::Hidden
            }),
    {
        self.active_project_search = search;
        match search {
            Some(_) => ToolbarItemLocation::PrimaryLeft,
            None => ToolbarItemLocation::Hidden,
        }
    }

    /// The search that is shown.
    pub fn active_project_search(&self) -> (r: Option<usize>)
        ensures
            r == self.shown(),
    {
        self.active_project_search
    }
}

impl Default for ProjectSearchBar {
    fn default() -> (r: Self)
        ensures
            r.shown() is None,
    {
        ProjectSearchBar::new()
    }
}

/// Whether a path, as the names of its parts, stands before another: part by part, in the order of
/// the characters.
pub open spec fn path_less(a: Seq<Seq<char>>, b: Seq<Seq<char>>) -> bool
    decreases a.len(),
{
    if b.len() == 0 {
        false
    } else if a.len() == 0 {
        true
    } else if a[0] != b[0] {
        text_less(a[0], b[0])
    } else {
        path_less(a.skip(1), b.skip(1))
    }
}

/// The meaning of the path of a file. What is not in a file has none.
pub open spec fn path_view(path: Option<Vec<String>>) -> Option<Seq<Seq<char>>> {
    match path {
        Some(parts) => Some(texts(parts@)),
        None => None,
    }
}

/// Whether a file stands before another; what is not in a file comes first.
pub open spec fn file_less(a: Option<Seq<Seq<char>>>, b: Option<Seq<Seq<char>>>) -> bool {
    match (a, b) {
        (Some(x), Some(y)) => path_less(x, y),
        (None, Some(_)) => true,
        _ => false,
    }
}

/// The order of paths is a strict order in which any two different paths are comparable.
pub proof fn path_order(a: Seq<Seq<char>>, b: Seq<Seq<char>>, c: Seq<Seq<char>>)
    ensures
        !path_less(a, a),
        a != b ==> path_less(a, b) || path_less(b, a),
        path_less(a, b) && path_less(b, c) ==> path_less(a, c),
    decreases a.len(),
{
    if a.len() == 0 && b.len() == 0 {
        assert(a =~= b);
    }
    if a.len() > 0 {
        path_order(a.skip(1), b.skip(1), c.skip(1));
        if b.len() > 0 {
            if c.len() > 0 {
                lemma_text_less(a[0], b[0], c[0]);
                lemma_text_less(b[0], a[0], c[0]);
            } else {
                lemma_text_less(a[0], b[0], a[0]);
            }
            if a[0] == b[0] && a.skip(1) == b.skip(1) {
                assert(a =~= seq![a[0]] + a.skip(1));
                assert(b =~= seq![b[0]] + b.skip(1));
            }
        }
    }
}

proof fn lemma_file_less(
    a: Option<Seq<Seq<char>>>,
    b: Option<Seq<Seq<char>>>,
    c: Option<Seq<Seq<char>>>,
)
    ensures
        !file_less(a, a),
        a != b ==> file_less(a, b) || file_less(b, a),
        file_less(a, b) && file_less(b, c) ==> file_less(a, c),
{
    if a is Some && b is Some {
        if c is Some {
            path_order(a->0, b->0, c->0);
        } else {
            path_order(a->0, b->0, a->0);
        }
    } else if a is Some {
        path_order(a->0, a->0, a->0);
    }
}

fn parts_less(a: &Vec<String>, b: &Vec<String>) -> (r: bool)
    ensures
        r == path_less(texts(a@), texts(b@)),
{
    let ghost x = texts(a@);
    let ghost y = texts(b@);
    let mut i: usize = 0;
    assert(x.skip(0) =~= x);
    assert(y.skip(0) =~= y);
    while i < a.len() && i < b.len()
        invariant
            x == texts(a@),
            y == texts(b@),
            i <= a@.len(),
            i <= b@.len(),
            path_less(x, y) == path_less(x.skip(i as int), y.skip(i as int)),
        decreases a@.len() - i,
    {
        assert(x.skip(i as int)[0] == a@[i as int]@);
        assert(y.skip(i as int)[0] == b@[i as int]@);
        if key_text_less(a[i].as_str(), b[i].as_str()) {
            proof {
                lemma_text_less(a@[i as int]@, b@[i as int]@, a@[i as int]@);
            }
            return true;
        }
        if key_text_less(b[i].as_str(), a[i].as_str()) {
            proof {
                lemma_text_less(b@[i as int]@, a@[i as int]@, b@[i as int]@);
            }
            return false;
        }
        proof {
            lemma_text_less(a@[i as int]@, b@[i as int]@, a@[i as int]@);
            assert(x.skip(i as int).skip(1) =~= x.skip(i + 1));
            assert(y.skip(i as int).skip(1) =~= y.skip(i + 1));
        }
        i += 1;
    }
    i < b.len()
}

fn paths_less(a: &Option<Vec<String>>, b: &Option<Vec<String>>) -> (r: bool)
    ensures
        r == file_less(path_view(*a), path_view(*b)),
{
    match (a, b) {
        (Some(x), Some(y)) => parts_less(x, y),
        (None, Some(_)) => true,
        _ => false,
    }
}

/// Whether a file gets its turn before another: it stands before it, or it came first.
pub open spec fn file_comes_before(paths: Seq<Option<Vec<String>>>, i: usize, j: usize) -> bool {
    let a = path_view(paths[i as int]);
    let b = path_view(paths[j as int]);
    file_less(a, b) || (a == b && i < j)
}

/// Whether places stand in the order of their files.
pub open spec fn in_file_order(paths: Seq<Option<Vec<String>>>, places: Seq<usize>) -> bool {
    forall|a: int, b: int|
        0 <= a < b < places.len() ==> file_comes_before(
            paths,
            #[trigger] places[a],
            #[trigger] places[b],
        )
}

/// The places of the buffers with matches, in the order of their files.
pub fn sort_by_file(paths: &Vec<Option<Vec<String>>>) -> (r: Vec<usize>)
    ensures
        in_file_order(paths@, r@),
        forall|k: usize| #[trigger] r@.contains(k) <==> k < paths@.len(),
        r@.len() == paths@.len(),
{
    let mut r: Vec<usize> = Vec::new();
    let mut i: usize = 0;
    while i < paths.len()
        invariant
            i <= paths.len(),
            r@.len() == i,
            in_file_order(paths@, r@),
            forall|k: usize| #[trigger] r@.contains(k) <==> k < i,
        decreases paths.len() - i,
    {
        let ghost before = r@;
        let mut p: usize = r.len();
        assert forall|m: int| 0 <= m < before.len() implies #[trigger] before[m] < i by {
            assert(before.contains(before[m]));
        }
        while p > 0 && paths_less(&paths[i], &paths[r[p - 1]])
            invariant
                p <= r.len(),
                i < paths.len(),
                r@ == before,
                forall|m: int| 0 <= m < before.len() ==> #[trigger] before[m] < i,
                forall|m: int|
                    p <= m < before.len() ==> file_less(
                        path_view(paths@[i as int]),
                        path_view(paths@[#[trigger] before[m] as int]),
                    ),
            decreases p,
        {
            p -= 1;
        }
        r.insert(p, i);
        proof {
            lemma_file_put(paths@, before, i, p as int);
        }
        i += 1;
    }
    r
}

proof fn lemma_file_put(paths: Seq<Option<Vec<String>>>, places: Seq<usize>, i: usize, p: int)
    requires
        in_file_order(paths, places),
        0 <= p <= places.len(),
        forall|m: int| 0 <= m < places.len() ==> #[trigger] places[m] < i,
        forall|m: int|
            p <= m < places.len() ==> file_less(
                path_view(paths[i as int]),
                path_view(paths[#[trigger] places[m] as int]),
            ),
        p > 0 ==> !file_less(path_view(paths[i as int]), path_view(paths[places[p - 1] as int])),
        forall|k: usize| #[trigger] places.contains(k) <==> k < i,
    ensures
        in_file_order(paths, places.insert(p, i)),
        forall|k: usize| #[trigger] places.insert(p, i).contains(k) <==> k <= i,
{
    let new = places.insert(p, i);
    let own = path_view(paths[i as int]);
    if p > 0 {
        let last = path_view(paths[places[p - 1] as int]);
        lemma_file_less(last, own, last);
    }
    assert forall|a: int, b: int| 0 <= a < b < new.len() implies file_comes_before(
        paths,
        #[trigger] new[a],
        #[trigger] new[b],
    ) by {
        if b == p {
            assert(new[a] == places[a]);
            if a < p - 1 {
                assert(file_comes_before(paths, places[a], places[p - 1]));
                lemma_file_less(
                    path_view(paths[places[a] as int]),
                    path_view(paths[places[p - 1] as int]),
                    own,
                );
            }
        } else if a == p {
            assert(new[b] == places[b - 1]);
        } else {
            let x = if a < p {
                a
            } else {
                a - 1
            };
            let y = if b < p {
                b
            } else {
                b - 1
            };
            assert(new[a] == places[x]);
            assert(new[b] == places[y]);
            assert(file_comes_before(paths, places[x], places[y]));
        }
    }
    assert forall|k: usize| #[trigger] new.contains(k) <==> k <= i by {
        if new.contains(k) {
            let m = choose|m: int| 0 <= m < new.len() && new[m] == k;
            if m < p {
                assert(places[m] == k);
            } else if m > p {
                assert(places[m - 1] == k);
            }
        }
        if k < i {
            assert(places.contains(k));
            let m = choose|m: int| 0 <= m < places.len() && places[m] == k;
            if m < p {
                assert(new[m] == k);
            } else {
                assert(new[m + 1] == k);
            }
        }
        assert(new[p] == i);
    }
}

/// The first part in which two paths differ decides which stands first; a directory stands in front of
/// what is in it.
pub proof fn first_part_decides(a: Seq<Seq<char>>, b: Seq<Seq<char>>, i: int)
    requires
        0 <= i <= a.len(),
        i <= b.len(),
        a.take(i) == b.take(i),
    ensures
        i < a.len() && i < b.len() && a[i] != b[i] ==> path_less(a, b) == text_less(a[i], b[i]),
        i == a.len() ==> path_less(a, b) == (i < b.len()),
        i == b.len() ==> !path_less(a, b),
    decreases i,
{
    if i > 0 {
        assert(a[0] == a.take(i)[0]);
        assert(b[0] == b.take(i)[0]);
        assert(a.skip(1).take(i - 1) =~= a.take(i).skip(1));
        assert(b.skip(1).take(i - 1) =~= b.take(i).skip(1));
        first_part_decides(a.skip(1), b.skip(1), i - 1);
    }
}

/// Files without a path stand in front of those with one, which stand in the order of their paths; of
/// two files with the same path the one that was listed first stays first.
pub proof fn files_stand_by_their_paths(paths: Seq<Option<Vec<String>>>, i: usize, j: usize)
    requires
        i < paths.len(),
        j < paths.len(),
    ensures
        paths[i as int] is None && paths[j as int] is Some ==> file_comes_before(paths, i, j)
            && !file_comes_before(paths, j, i),
        paths[i as int] is None && paths[j as int] is None ==> file_comes_before(paths, i, j) == (i
            < j),
        paths[i as int] matches Some(a) ==> (paths[j as int] matches Some(b) ==> {
            &&& texts(a@) != texts(b@) ==> file_comes_before(paths, i, j) == path_less(
                texts(a@),
                texts(b@),
            )
            &&& texts(a@) == texts(b@) ==> file_comes_before(paths, i, j) == (i < j)
        }),
{
    if paths[i as int] is Some {
        let a = texts(paths[i as int]->0@);
        path_order(a, a, a);
    }
}

/// A title that is cut shows the beginning of the query and an ellipsis: its first twenty-four bytes.
pub proof fn titles_begin_like_the_query(query: Seq<char>, title: Seq<char>)
    requires
        is_tab_title(query, title),
    ensures
        bytes_len(query) <= 24 ==> title == query,
        bytes_len(query) > 24 ==> {
            &&& title.len() > 0
            &&& title.last() == '…'
            &&& title.drop_last() == query.take(title.len() - 1)
            &&& title.len() - 1 <= query.len()
            &&& bytes_len(title.drop_last()) == 24
        },
{
    if bytes_len(query) > 24 {
        reveal_strlit("…");
        let chars = choose|chars: int| #[trigger]
            prefix_has_bytes(query, chars, MAX_TAB_TITLE_LEN as int) && title == query.take(chars)
                + "…"@;
        assert(title.drop_last() =~= query.take(chars));
    }
}

} // verus!
