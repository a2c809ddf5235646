//! Key bindings and the matcher that turns keystrokes into actions.
use std::collections::HashMap;
use vstd::prelude::*;
use crate::context_predicate::{
    predicate_of, Context, ContextPredicate, ContextView, InvalidPredicate, PredicateView,
};
use crate::keystroke::{keystroke_of, strokes, InvalidKeystroke, Keystroke, KeystrokeView};
use crate::keystroke_list::{listed, KeystrokeList};
use crate::keystroke_order::{
    keys_less, strokes_are_comparable, strokes_less, strokes_less_is_irreflexive,
    strokes_less_is_transitive,
};
use crate::text::{chars_of, same_text, split_words, texts, words};

verus! {

broadcast use vstd::std_specs::hash::group_hash_axioms;

/// An action: its type, named, and the argument that it carries.
#[derive(Debug, PartialEq, Eq)]
pub struct Action {
    pub name: String,
    pub argument: String,
}

/// The meaning of an action.
pub struct ActionView {
    pub name: Seq<char>,
    pub argument: Seq<char>,
}

impl View for Action {
    type V = ActionView;

    open spec fn view(&self) -> ActionView {
        ActionView { name: self.name@, argument: self.argument@ }
    }
}

impl Action {
    /// Whether two actions are of one type and carry one argument.
    pub fn same(&self, other: &Action) -> (r: bool)
        ensures
            r == (self@ == other@),
    {
        same_text(self.name.as_str(), other.name.as_str()) && same_text(
            self.argument.as_str(),
            other.argument.as_str(),
        )
    }
}

impl Clone for Action {
    fn clone(&self) -> (r: Self)
        ensures
            r == *self,
    {
        Action { name: self.name.clone(), argument: self.argument.clone() }
    }
}

/// Keystrokes that stand for an action, in the contexts that a predicate admits.
pub struct Binding {
    keystrokes: KeystrokeList,
    action: Action,
    context_predicate: Option<ContextPredicate>,
}

/// The meaning of a binding.
pub struct BindingView {
    pub keystrokes: Seq<KeystrokeView>,
    pub action: ActionView,
    pub predicate: Option<PredicateView>,
}

impl View for Binding {
    type V = BindingView;

    closed spec fn view(&self) -> BindingView {
        BindingView {
            keystrokes: strokes(listed(self.keystrokes)),
            action: self.action@,
            predicate: match self.context_predicate {
                Some(p) => Some(p.model()),
                None => None,
            },
        }
    }
}

impl BindingView {
    /// Whether the binding counts in a context. One without a predicate counts everywhere.
    pub open spec fn applies(self, cx: ContextView) -> bool {
        match self.predicate {
            Some(p) => p.holds(cx),
            None => true,
        }
    }

    /// Whether the binding counts in a context and is made of exactly these keystrokes.
    pub open spec fn matches(self, keys: Seq<KeystrokeView>, cx: ContextView) -> bool {
        self.applies(cx) && self.keystrokes == keys
    }

    /// Whether the binding counts in a context and goes on after these keystrokes.
    pub open spec fn continues(self, keys: Seq<KeystrokeView>, cx: ContextView) -> bool {
        &&& self.applies(cx)
        &&& keys.len() < self.keystrokes.len()
        &&& keys.is_prefix_of(self.keystrokes)
    }
}

/// What the bindings mean.
pub open spec fn binding_views(bindings: Seq<Binding>) -> Seq<BindingView> {
    bindings.map_values(|b: Binding| b@)
}

/// Why a binding could not be read.
#[derive(Debug, PartialEq, Eq)]
pub enum InvalidBinding {
    Predicate(InvalidPredicate),
    Keystroke(InvalidKeystroke),
}

impl InvalidBinding {
    /// The sentence shown to the user.
    pub fn message(&self) -> (r: String)
        ensures
            r@ == match self {
                InvalidBinding::Predicate(_) => "error parsing context predicate"@,
                InvalidBinding::Keystroke(e) => "Invalid keystroke `"@ + e.source@ + "`"@,
            },
    {
        match self {
            InvalidBinding::Predicate(e) => e.message(),
            InvalidBinding::Keystroke(e) => e.message(),
        }
    }
}

/// The keystrokes that words name, if every word names one.
pub open spec fn keystrokes_of(names: Seq<Seq<char>>) -> Option<Seq<KeystrokeView>>
    decreases names.len(),
{
    if names.len() == 0 {
        Some(Seq::empty())
    } else {
        match keystrokes_of(names.drop_last()) {
            Some(keys) => match keystroke_of(names.last()) {
                Some(key) => Some(keys.push(key)),
                None => None,
            },
            None => None,
        }
    }
}

/// The first word that names no keystroke.
pub open spec fn first_invalid(names: Seq<Seq<char>>) -> Seq<char>
    decreases names.len(),
{
    if names.len() == 0 {
        Seq::empty()
    } else if keystrokes_of(names.drop_last()) is None {
        first_invalid(names.drop_last())
    } else {
        names.last()
    }
}

/// Whether a predicate, where there is one, can be read.
pub open spec fn readable(context: Option<&str>) -> bool {
    match context {
        Some(source) => predicate_of(source@) is Some,
        None => true,
    }
}

proof fn lemma_keystrokes_prefix(names: Seq<Seq<char>>, n: int)
    requires
        0 <= n <= names.len(),
        keystrokes_of(names.take(n)) is None,
    ensures
        keystrokes_of(names) is None,
        first_invalid(names) == first_invalid(names.take(n)),
    decreases names.len() - n,
{
    if n == names.len() {
        assert(names.take(n) =~= names);
    } else {
        assert(names.take(n + 1).drop_last() =~= names.take(n));
        lemma_keystrokes_prefix(names, n + 1);
    }
}

impl Binding {
    /// Reads a binding; its keystrokes are separated by white space.
    pub fn load(keystrokes: &str, action: Action, context: Option<&str>) -> (r: Result<
        Binding,
        InvalidBinding,
    >)
        ensures
            r is Ok == (readable(context) && keystrokes_of(words(keystrokes@)) is Some),
            r matches Ok(b) ==> {
                &&& Some(b@.keystrokes) == keystrokes_of(words(keystrokes@))
                &&& b@.action == action@
                &&& b@.predicate == match context {
                    Some(source) => predicate_of(source@),
                    None => None,
                }
            },
            r matches Err(e) ==> match e {
                InvalidBinding::Predicate(_) => !readable(context),
                InvalidBinding::Keystroke(bad) => readable(context) && bad.source@ == first_invalid(
                    words(keystrokes@),
                ),
            },
    {
        let context_predicate = match context {
            Some(source) => match ContextPredicate::parse(source) {
                Ok(p) => Some(p),
                Err(e) => {
                    return Err(InvalidBinding::Predicate(e));
                },
            },
            None => None,
        };
        let chars: Vec<char> = chars_of(keystrokes);
        let names: Vec<String> = split_words(&chars);
        let ghost all = texts(names@);
        let mut keys = KeystrokeList::new();
        let mut i: usize = 0;
        assert(strokes(listed(keys)) =~= Seq::empty());
        while i < names.len()
            invariant
                i <= names.len(),
                all == texts(names@),
                all == words(keystrokes@),
                readable(context),
                keystrokes_of(all.take(i as int)) == Some(strokes(listed(keys))),
            decreases names.len() - i,
        {
            assert(all.take(i + 1).drop_last() =~= all.take(i as int));
            assert(all.take(i + 1).last() == names@[i as int]@);
            match Keystroke::parse(names[i].as_str()) {
                Ok(key) => {
                    let ghost before = strokes(listed(keys));
                    let ghost added = key@;
                    keys.push(key);
                    assert(strokes(listed(keys)) =~= before.push(added));
                },
                Err(e) => {
                    proof {
                        lemma_keystrokes_prefix(all, i + 1);
                    }
                    return Err(InvalidBinding::Keystroke(e));
                },
            }
            i += 1;
        }
        assert(all.take(i as int) =~= all);
        Ok(Binding { keystrokes: keys, action, context_predicate })
    }

    /// A binding that is known to be readable.
    pub fn new(keystrokes: &str, action: Action, context: Option<&str>) -> (r: Binding)
        requires
            readable(context),
            keystrokes_of(words(keystrokes@)) is Some,
        ensures
            Some(r@.keystrokes) == keystrokes_of(words(keystrokes@)),
            r@.action == action@,
            r@.predicate == match context {
                Some(source) => predicate_of(source@),
                None => None,
            },
    {
        match Binding::load(keystrokes, action, context) {
            Ok(r) => r,
            Err(_) => vstd::pervasive::unreached(),
        }
    }

    /// The keystrokes of the binding.
    pub fn keystrokes(&self) -> (r: &[Keystroke])
        ensures
            strokes(r@) == self@.keystrokes,
    {
        self.keystrokes.as_slice()
    }

    /// The action of the binding.
    pub fn action(&self) -> (r: &Action)
        ensures
            r@ == self@.action,
    {
        &self.action
    }

    /// Whether the predicate of the binding asks for the identifier `id`.
    pub fn context_contains_identifier(&self, id: &str) -> (r: bool)
        ensures
            r == match self@.predicate {
                Some(p) => p.mentions(id@),
                None => false,
            },
    {
        match &self.context_predicate {
            Some(p) => p.contains_identifier(id),
            None => false,
        }
    }

    fn applies(&self, cx: &Context) -> (r: bool)
        ensures
            r == self@.applies(cx@),
    {
        match &self.context_predicate {
            Some(p) => p.eval(cx),
            None => true,
        }
    }

    fn begins_with(&self, keys: &Vec<Keystroke>) -> (r: bool)
        ensures
            r == strokes(keys@).is_prefix_of(self@.keystrokes),
    {
        let own: &[Keystroke] = self.keystrokes.as_slice();
        let ghost mine = self@.keystrokes;
        let ghost theirs = strokes(keys@);
        if keys.len() > own.len() {
            return false;
        }
        let mut i: usize = 0;
        while i < keys.len()
            invariant
                i <= keys.len() <= own.len(),
                mine == strokes(own@),
                mine == self@.keystrokes,
                theirs == strokes(keys@),
                forall|j: int| 0 <= j < i ==> #[trigger] theirs[j] == mine[j],
            decreases keys.len() - i,
        {
            if !own[i].same(&keys[i]) {
                assert(theirs[i as int] != mine[i as int]);
                proof {
                    if theirs.is_prefix_of(mine) {
                        assert(theirs[i as int] == mine.subrange(0, theirs.len() as int)[i as int]);
                    }
                }
                return false;
            }
            i += 1;
        }
        assert(theirs =~= mine.subrange(0, theirs.len() as int));
        true
    }
}

/// The bindings of an application. Of two that match, the later one wins.
pub struct Keymap {
    bindings: Vec<Binding>,
}

impl View for Keymap {
    type V = Seq<BindingView>;

    closed spec fn view(&self) -> Seq<BindingView> {
        binding_views(self.bindings@)
    }
}

/// The bindings whose action is of the named type, in order.
pub open spec fn of_type(bindings: Seq<BindingView>, name: Seq<char>) -> Seq<BindingView>
    decreases bindings.len(),
{
    if bindings.len() == 0 {
        Seq::empty()
    } else {
        let before = of_type(bindings.drop_last(), name);
        if bindings.last().action.name == name {
            before.push(bindings.last())
        } else {
            before
        }
    }
}

impl Keymap {
    /// A keymap with the given bindings.
    pub fn new(bindings: Vec<Binding>) -> (r: Keymap)
        ensures
            r@ == binding_views(bindings@),
    {
        Keymap { bindings }
    }

    /// The bindings for actions of the named type, in the order in which they were added.
    pub fn bindings_for_action_type(&self, name: &str) -> (r: Vec<&Binding>)
        ensures
            r@.map_values(|b: &Binding| b@) == of_type(self@, name@),
    {
        let mut r: Vec<&Binding> = Vec::new();
        let mut i: usize = 0;
        assert(r@.map_values(|b: &Binding| b@) =~= of_type(self@.take(0), name@));
        while i < self.bindings.len()
            invariant
                i <= self.bindings.len(),
                r@.map_values(|b: &Binding| b@) == of_type(self@.take(i as int), name@),
            decreases self.bindings.len() - i,
        {
            let binding: &Binding = &self.bindings[i];
            assert(self@.take(i + 1).drop_last() =~= self@.take(i as int));
            assert(self@.take(i + 1).last() == binding@);
            if same_text(binding.action.name.as_str(), name) {
                let ghost before = r@.map_values(|b: &Binding| b@);
                r.push(binding);
                assert(r@.map_values(|b: &Binding| b@) =~= before.push(binding@));
            }
            i += 1;
        }
        assert(self@.take(i as int) =~= self@);
        r
    }

    /// Adds bindings behind those that are there.
    pub fn add_bindings(&mut self, bindings: Vec<Binding>)
        ensures
            final(self)@ == old(self)@ + binding_views(bindings@),
    {
        let mut bindings = bindings;
        let ghost added = binding_views(bindings@);
        self.bindings.append(&mut bindings);
        assert(self@ =~= old(self)@ + added);
    }

    /// Takes all bindings out.
    pub fn clear(&mut self)
        ensures
            final(self)@ == Seq::<BindingView>::empty(),
    {
        self.bindings.clear();
        assert(self@ =~= Seq::empty());
    }
}

impl Default for Keymap {
    fn default() -> (r: Self)
        ensures
            r@ == Seq::<BindingView>::empty(),
    {
        let r = Keymap { bindings: Vec::new() };
        assert(r@ =~= Seq::empty());
        r
    }
}

/// The keystrokes that a view has seen of a binding that goes on, and the context it saw them in.
struct Pending {
    keystrokes: Vec<Keystroke>,
    context: Context,
}

/// The meaning of pending keystrokes.
pub struct PendingView {
    pub keystrokes: Seq<KeystrokeView>,
    pub context: ContextView,
}

impl View for Pending {
    type V = PendingView;

    closed spec fn view(&self) -> PendingView {
        PendingView { keystrokes: strokes(self.keystrokes@), context: self.context@ }
    }
}

/// What came of a keystroke.
#[derive(Debug, PartialEq, Eq)]
pub enum MatchResult {
    NoMatch,
    Pending,
    Match { view_id: usize, action: Action },
}

/// The meaning of a match result.
pub enum MatchView {
    NoMatch,
    Pending,
    Match { view_id: usize, action: ActionView },
}

impl View for MatchResult {
    type V = MatchView;

    open spec fn view(&self) -> MatchView {
        match self {
            MatchResult::NoMatch => MatchView::NoMatch,
            MatchResult::Pending => MatchView::Pending,
            MatchResult::Match { view_id, action } => MatchView::Match {
                view_id: *view_id,
                action: action@,
            },
        }
    }
}

impl MatchResult {
    /// Whether two results are the same.
    pub fn same(&self, other: &MatchResult) -> (r: bool)
        ensures
            r == (self@ == other@),
    {
        match (self, other) {
            (MatchResult::NoMatch, MatchResult::NoMatch) => true,
            (MatchResult::Pending, MatchResult::Pending) => true,
            (
                MatchResult::Match { view_id: a, action: x },
                MatchResult::Match { view_id: b, action: y },
            ) => *a == *b && x.same(y),
            _ => false,
        }
    }
}

impl Clone for MatchResult {
    fn clone(&self) -> (r: Self)
        ensures
            r == *self,
    {
        match self {
            MatchResult::NoMatch => MatchResult::NoMatch,
            MatchResult::Pending => MatchResult::Pending,
            MatchResult::Match { view_id, action } => MatchResult::Match {
                view_id: *view_id,
                action: action.clone(),
            },
        }
    }
}

/// The action of the last binding that is made of exactly these keystrokes.
pub open spec fn latest_match(
    bindings: Seq<BindingView>,
    keys: Seq<KeystrokeView>,
    cx: ContextView,
) -> Option<ActionView>
    decreases bindings.len(),
{
    if bindings.len() == 0 {
        None
    } else if bindings.last().matches(keys, cx) {
        Some(bindings.last().action)
    } else {
        latest_match(bindings.drop_last(), keys, cx)
    }
}

/// Whether a binding goes on after these keystrokes.
pub open spec fn some_continues(
    bindings: Seq<BindingView>,
    keys: Seq<KeystrokeView>,
    cx: ContextView,
) -> bool {
    exists|i: int| 0 <= i < bindings.len() && (#[trigger] bindings[i]).continues(keys, cx)
}

/// The keystrokes that count for a view after one more: those that are pending for it are
/// forgotten when its context has changed.
pub open spec fn keys_with(
    pending: Map<usize, PendingView>,
    view_id: usize,
    cx: ContextView,
    key: KeystrokeView,
) -> Seq<KeystrokeView> {
    if pending.dom().contains(view_id) && pending[view_id].context == cx {
        pending[view_id].keystrokes.push(key)
    } else {
        seq![key]
    }
}

/// Offers a keystroke to the views of a path, one after the other. `first` says that no
/// keystrokes were pending at the start; otherwise only views with pending ones take part. `any`
/// says that a view before these has pending keystrokes now.
pub open spec fn offered(
    bindings: Seq<BindingView>,
    first: bool,
    pending: Map<usize, PendingView>,
    key: KeystrokeView,
    path: Seq<(usize, ContextView)>,
    any: bool,
) -> (Map<usize, PendingView>, MatchView)
    decreases path.len(),
{
    if path.len() == 0 {
        (
            pending,
            if any {
                MatchView::Pending
            } else {
                MatchView::NoMatch
            },
        )
    } else {
        let (view_id, cx) = path[0];
        let rest = path.skip(1);
        let keys = keys_with(pending, view_id, cx, key);
        if !first && !pending.dom().contains(view_id) {
            offered(bindings, first, pending, key, rest, any)
        } else {
            match latest_match(bindings, keys, cx) {
                Some(action) => (pending.remove(view_id), MatchView::Match { view_id, action }),
                None => if some_continues(bindings, keys, cx) {
                    let now = PendingView { keystrokes: keys, context: cx };
                    offered(bindings, first, pending.insert(view_id, now), key, rest, true)
                } else {
                    offered(bindings, first, pending.remove(view_id), key, rest, any)
                },
            }
        }
    }
}

/// Whether everything that is pending can still become a match.
pub open spec fn pending_is_live(
    bindings: Seq<BindingView>,
    pending: Map<usize, PendingView>,
) -> bool {
    forall|id: usize| #[trigger]
        pending.dom().contains(id) ==> some_continues(
            bindings,
            pending[id].keystrokes,
            pending[id].context,
        )
}

/// The meaning of a path of views with their contexts.
pub open spec fn path_views(path: Seq<(usize, Context)>) -> Seq<(usize, ContextView)> {
    path.map_values(|step: (usize, Context)| (step.0, step.1@))
}

/// Matches keystrokes against a keymap, view by view.
pub struct Matcher {
    pending: HashMap<usize, Pending>,
    keymap: Keymap,
}

/// The meaning of a matcher.
pub struct MatcherView {
    pub bindings: Seq<BindingView>,
    pub pending: Map<usize, PendingView>,
}

impl View for Matcher {
    type V = MatcherView;

    closed spec fn view(&self) -> MatcherView {
        MatcherView {
            bindings: self.keymap@,
            pending: self.pending@.map_values(|p: Pending| p@),
        }
    }
}

enum Offer {
    Match(Action),
    Continue,
    Nothing,
}

impl Keymap {
    fn offer(&self, keys: &Vec<Keystroke>, cx: &Context) -> (r: Offer)
        ensures
            match r {
                Offer::Match(action) => latest_match(self@, strokes(keys@), cx@) == Some(action@),
                Offer::Continue => latest_match(self@, strokes(keys@), cx@) is None
                    && some_continues(self@, strokes(keys@), cx@),
                Offer::Nothing => latest_match(self@, strokes(keys@), cx@) is None
                    && !some_continues(self@, strokes(keys@), cx@),
            },
    {
        let ghost all = self@;
        let ghost typed = strokes(keys@);
        let mut goes_on: bool = false;
        let mut i: usize = self.bindings.len();
        assert(all.take(i as int) =~= all);
        while i > 0
            invariant
                i <= self.bindings.len(),
                all == self@,
                typed == strokes(keys@),
                latest_match(all, typed, cx@) == latest_match(all.take(i as int), typed, cx@),
                goes_on == exists|j: int| i <= j < all.len() && (#[trigger] all[j]).continues(typed, cx@),
            decreases i,
        {
            i -= 1;
            let binding: &Binding = &self.bindings[i];
            assert(all[i as int] == binding@);
            assert(all.take(i + 1).drop_last() =~= all.take(i as int));
            assert(all.take(i + 1).last() == binding@);
            if binding.begins_with(keys) && binding.applies(cx) {
                let own: &[Keystroke] = binding.keystrokes.as_slice();
                if own.len() == keys.len() {
                    assert(binding@.keystrokes =~= typed);
                    return Offer::Match(binding.action.clone());
                } else {
                    goes_on = true;
                    assert(all[i as int].continues(typed, cx@));
                }
            } else {
                assert(!binding@.continues(typed, cx@));
            }
            assert(!binding@.matches(typed, cx@));
        }
        assert(all.take(0) =~= Seq::empty());
        if goes_on {
            Offer::Continue
        } else {
            Offer::Nothing
        }
    }
}

impl Matcher {
    /// A matcher for a keymap, with nothing pending.
    pub fn new(keymap: Keymap) -> (r: Matcher)
        ensures
            r@.bindings == keymap@,
            r@.pending == Map::<usize, PendingView>::empty(),
    {
        let r = Matcher { pending: HashMap::new(), keymap };
        assert(r@.pending =~= Map::empty());
        r
    }

    /// Puts another keymap in place and forgets what is pending.
    pub fn set_keymap(&mut self, keymap: Keymap)
        ensures
            final(self)@.bindings == keymap@,
            final(self)@.pending == Map::<usize, PendingView>::empty(),
    {
        self.pending.clear();
        self.keymap = keymap;
        assert(self@.pending =~= Map::empty());
    }

    /// Adds bindings and forgets what is pending.
    pub fn add_bindings(&mut self, bindings: Vec<Binding>)
        ensures
            final(self)@.bindings == old(self)@.bindings + binding_views(bindings@),
            final(self)@.pending == Map::<usize, PendingView>::empty(),
    {
        self.pending.clear();
        self.keymap.add_bindings(bindings);
        assert(self@.pending =~= Map::empty());
    }

    /// Takes all bindings out and forgets what is pending.
    pub fn clear_bindings(&mut self)
        ensures
            final(self)@.bindings == Seq::<BindingView>::empty(),
            final(self)@.pending == Map::<usize, PendingView>::empty(),
    {
        self.pending.clear();
        self.keymap.clear();
        assert(self@.pending =~= Map::empty());
    }

    /// The bindings for actions of the named type.
    pub fn bindings_for_action_type(&self, name: &str) -> (r: Vec<&Binding>)
        ensures
            r@.map_values(|b: &Binding| b@) == of_type(self@.bindings, name@),
    {
        self.keymap.bindings_for_action_type(name)
    }

    /// Forgets what is pending.
    pub fn clear_pending(&mut self)
        ensures
            final(self)@.bindings == old(self)@.bindings,
            final(self)@.pending == Map::<usize, PendingView>::empty(),
    {
        self.pending.clear();
        assert(self@.pending =~= Map::empty());
    }

    /// Whether keystrokes are pending for any view.
    pub fn has_pending_keystrokes(&self) -> (r: bool)
        ensures
            r == (self@.pending != Map::<usize, PendingView>::empty()),
    {
        let empty: bool = self.pending.is_empty();
        proof {
            if empty {
                assert(self@.pending =~= Map::empty());
            } else if self@.pending == Map::<usize, PendingView>::empty() {
                assert(self.pending@.dom() =~= self@.pending.dom());
                assert(self.pending@ =~= Map::empty());
            }
        }
        !empty
    }

    /// Offers a keystroke to the views of a path, the innermost first.
    pub fn push_keystroke(
        &mut self,
        keystroke: Keystroke,
        dispatch_path: Vec<(usize, Context)>,
    ) -> (r: MatchResult)
        ensures
            final(self)@.bindings == old(self)@.bindings,
            (final(self)@.pending, r@) == offered(
                old(self)@.bindings,
                old(self)@.pending == Map::<usize, PendingView>::empty(),
                old(self)@.pending,
                keystroke@,
                path_views(dispatch_path@),
                false,
            ),
    {
        let first: bool = !self.has_pending_keystrokes();
        let ghost bindings = self@.bindings;
        let ghost path = path_views(dispatch_path@);
        let ghost outcome = offered(bindings, first, self@.pending, keystroke@, path, false);
        let mut any_pending: bool = false;
        let mut i: usize = 0;
        assert(path.skip(0) =~= path);
        while i < dispatch_path.len()
            invariant
                i <= dispatch_path.len(),
                path == path_views(dispatch_path@),
                bindings == old(self)@.bindings,
                self@.bindings == bindings,
                outcome == offered(
                    bindings,
                    old(self)@.pending == Map::<usize, PendingView>::empty(),
                    old(self)@.pending,
                    keystroke@,
                    path,
                    false,
                ),
                outcome == offered(
                    bindings,
                    first,
                    self@.pending,
                    keystroke@,
                    path.skip(i as int),
                    any_pending,
                ),
            decreases dispatch_path.len() - i,
        {
            let view_id: usize = dispatch_path[i].0;
            let context: &Context = &dispatch_path[i].1;
            let ghost before = self@.pending;
            assert(path.skip(i as int)[0] == (view_id, context@));
            assert(path.skip(i as int).skip(1) =~= path.skip(i + 1));
            i += 1;
            if !first && !self.pending.contains_key(&view_id) {
                continue;
            }
            let ghost stored = self.pending@;
            let mut keys: Vec<Keystroke> = match self.pending.remove(&view_id) {
                Some(seen) => if seen.context.same(context) {
                    assert(before[view_id] == seen@);
                    seen.keystrokes
                } else {
                    Vec::new()
                },
                None => Vec::new(),
            };
            let ghost seen = strokes(keys@);
            keys.push(keystroke.clone());
            assert(strokes(keys@) =~= seen.push(keystroke@));
            assert(strokes(keys@) =~= keys_with(before, view_id, context@, keystroke@));
            assert(self@.pending =~= before.remove(view_id));
            match self.keymap.offer(&keys, context) {
                Offer::Match(action) => {
                    return MatchResult::Match { view_id, action };
                },
                Offer::Continue => {
                    any_pending = true;
                    let entry = Pending { keystrokes: keys, context: context.clone() };
                    let ghost now = PendingView {
                        keystrokes: strokes(keys@),
                        context: context@,
                    };
                    assert(entry@ == now);
                    self.pending.insert(view_id, entry);
                    assert(self@.pending =~= before.insert(view_id, now));
                },
                Offer::Nothing => {},
            }
        }
        if any_pending {
            MatchResult::Pending
        } else {
            MatchResult::NoMatch
        }
    }
}

/// The keystrokes of the last binding for an action that counts in a context.
pub open spec fn latest_keystrokes(
    bindings: Seq<BindingView>,
    action: ActionView,
    cx: ContextView,
) -> Option<Seq<KeystrokeView>>
    decreases bindings.len(),
{
    if bindings.len() == 0 {
        None
    } else if bindings.last().action == action && bindings.last().applies(cx) {
        Some(bindings.last().keystrokes)
    } else {
        latest_keystrokes(bindings.drop_last(), action, cx)
    }
}

/// Whether a binding counts in a context, begins with the keystrokes `seen`, and then asks for
/// exactly the keystrokes `next`.
pub open spec fn offers(
    b: BindingView,
    seen: Seq<KeystrokeView>,
    cx: ContextView,
    next: Seq<KeystrokeView>,
) -> bool {
    b.applies(cx) && b.keystrokes == seen + next
}

/// The last binding that the keystrokes `next` would complete.
pub open spec fn latest_offer(
    bindings: Seq<BindingView>,
    seen: Seq<KeystrokeView>,
    cx: ContextView,
    next: Seq<KeystrokeView>,
) -> Option<BindingView>
    decreases bindings.len(),
{
    if bindings.len() == 0 {
        None
    } else if offers(bindings.last(), seen, cx, next) {
        Some(bindings.last())
    } else {
        latest_offer(bindings.drop_last(), seen, cx, next)
    }
}

/// The keystrokes that are pending for a view.
pub open spec fn pending_for(m: MatcherView, view_id: usize) -> Seq<KeystrokeView> {
    if m.pending.dom().contains(view_id) {
        m.pending[view_id].keystrokes
    } else {
        Seq::empty()
    }
}

/// Whether there is an entry for the keystrokes `next`.
pub open spec fn listed_for(
    entries: Seq<(Vec<Keystroke>, &Binding)>,
    next: Seq<KeystrokeView>,
) -> bool {
    exists|i: int| 0 <= i < entries.len() && strokes((#[trigger] entries[i]).0@) == next
}

/// Whether entries stand in ascending order of their keystrokes, no two for the same.
pub open spec fn ordered(entries: Seq<(Vec<Keystroke>, &Binding)>) -> bool {
    forall|i: int, j: int|
        0 <= i < j < entries.len() ==> strokes_less(
            strokes((#[trigger] entries[i]).0@),
            strokes((#[trigger] entries[j]).0@),
        )
}

impl Matcher {
    /// The keystrokes of the last binding for `action` that counts in `cx`.
    pub fn keystrokes_for_action(&self, action: &Action, cx: &Context) -> (r: Option<
        Vec<Keystroke>,
    >)
        ensures
            r is Some == latest_keystrokes(self@.bindings, action@, cx@) is Some,
            r matches Some(keys) ==> latest_keystrokes(self@.bindings, action@, cx@) == Some(
                strokes(keys@),
            ),
    {
        let ghost all = self@.bindings;
        let mut i: usize = self.keymap.bindings.len();
        assert(all.take(i as int) =~= all);
        while i > 0
            invariant
                i <= self.keymap.bindings.len(),
                all == self@.bindings,
                latest_keystrokes(all, action@, cx@) == latest_keystrokes(
                    all.take(i as int),
                    action@,
                    cx@,
                ),
            decreases i,
        {
            i -= 1;
            let binding: &Binding = &self.keymap.bindings[i];
            assert(all.take(i + 1).drop_last() =~= all.take(i as int));
            assert(all.take(i + 1).last() == binding@);
            if binding.action.same(action) && binding.applies(cx) {
                return Some(copy_keys(binding.keystrokes.as_slice(), 0));
            }
        }
        None
    }

    /// What a view could do next: for each continuation of its pending keystrokes the last
    /// binding that it completes, in ascending order of the keystrokes.
    pub fn available_bindings(&self, view_id: usize, context: &Context) -> (r: Vec<
        (Vec<Keystroke>, &Binding),
    >)
        ensures
            ordered(r@),
            forall|next: Seq<KeystrokeView>| #[trigger]
                listed_for(r@, next) == latest_offer(
                    self@.bindings,
                    pending_for(self@, view_id),
                    context@,
                    next,
                ) is Some,
            forall|i: int|
                0 <= i < r@.len() ==> latest_offer(
                    self@.bindings,
                    pending_for(self@, view_id),
                    context@,
                    strokes((#[trigger] r@[i]).0@),
                ) == Some(r@[i].1@),
    {
        let ghost all = self@.bindings;
        let none: Vec<Keystroke> = Vec::new();
        let seen: &Vec<Keystroke> = match self.pending.get(&view_id) {
            Some(p) => &p.keystrokes,
            None => &none,
        };
        let ghost typed = pending_for(self@, view_id);
        assert(strokes(seen@) =~= typed);
        let mut entries: Vec<(Vec<Keystroke>, &Binding)> = Vec::new();
        let mut i: usize = self.keymap.bindings.len();
        assert(all.take(i as int) =~= all);
        while i > 0
            invariant
                i <= self.keymap.bindings.len(),
                all == self@.bindings,
                typed == strokes(seen@),
                ordered(entries@),
                forall|next: Seq<KeystrokeView>| #[trigger]
                    listed_for(entries@, next) ==> latest_offer(all, typed, context@, next) is Some,
                forall|next: Seq<KeystrokeView>|
                    !(#[trigger] listed_for(entries@, next)) ==> latest_offer(
                        all,
                        typed,
                        context@,
                        next,
                    ) == latest_offer(all.take(i as int), typed, context@, next),
                forall|k: int|
                    0 <= k < entries@.len() ==> latest_offer(
                        all,
                        typed,
                        context@,
                        strokes((#[trigger] entries@[k]).0@),
                    ) == Some(entries@[k].1@),
            decreases i,
        {
            i -= 1;
            let binding: &Binding = &self.keymap.bindings[i];
            assert(all.take(i + 1).drop_last() =~= all.take(i as int));
            assert(all.take(i + 1).last() == binding@);
            if binding.begins_with(seen) && binding.applies(context) {
                let next: Vec<Keystroke> = copy_keys(binding.keystrokes.as_slice(), seen.len());
                let ghost suffix = strokes(next@);
                assert(binding@.keystrokes =~= typed + suffix);
                let ghost before = entries@;
                proof {
                    assert forall|other: Seq<KeystrokeView>| offers(
                        binding@,
                        typed,
                        context@,
                        other,
                    ) implies other == suffix by {
                        assert(other =~= (typed + other).skip(typed.len() as int));
                        assert(suffix =~= (typed + suffix).skip(typed.len() as int));
                    }
                }
                insert_entry(&mut entries, next, binding);
                proof {
                    assert forall|other: Seq<KeystrokeView>| #[trigger] listed_for(entries@, other)
                        == (listed_for(before, other) || other == suffix) by {}
                }
            } else {
                proof {
                    assert forall|other: Seq<KeystrokeView>| !offers(
                        binding@,
                        typed,
                        context@,
                        other,
                    ) by {
                        if binding@.keystrokes == typed + other {
                            assert(typed =~= (typed + other).subrange(0, typed.len() as int));
                        }
                    }
                }
            }
        }
        proof {
            assert forall|next: Seq<KeystrokeView>| #[trigger] listed_for(entries@, next)
                == latest_offer(all, typed, context@, next) is Some by {
                assert(all.take(0) =~= Seq::empty());
            }
        }
        entries
    }
}

fn copy_keys(keys: &[Keystroke], from: usize) -> (r: Vec<Keystroke>)
    requires
        from <= keys@.len(),
    ensures
        strokes(r@) == strokes(keys@).skip(from as int),
{
    let mut r: Vec<Keystroke> = Vec::new();
    let mut i: usize = from;
    while i < keys.len()
        invariant
            from <= i <= keys@.len(),
            r@.len() == i - from,
            forall|j: int| 0 <= j < r@.len() ==> (#[trigger] r@[j])@ == keys@[from + j]@,
        decreases keys@.len() - i,
    {
        r.push(keys[i].clone());
        i += 1;
    }
    assert(strokes(r@) =~= strokes(keys@).skip(from as int));
    r
}

/// Puts an entry in its place, unless there is one for the same keystrokes.
fn insert_entry<'a>(
    entries: &mut Vec<(Vec<Keystroke>, &'a Binding)>,
    keys: Vec<Keystroke>,
    binding: &'a Binding,
)
    requires
        ordered(old(entries)@),
    ensures
        ordered(final(entries)@),
        forall|next: Seq<KeystrokeView>| #[trigger]
            listed_for(final(entries)@, next) == (listed_for(old(entries)@, next) || next == strokes(
                keys@,
            )),
        forall|k: int|
            #![trigger final(entries)@[k]]
            0 <= k < final(entries)@.len() ==> {
                ||| exists|m: int|
                    0 <= m < old(entries)@.len() && #[trigger] old(entries)@[m]
                        == final(entries)@[k]
                ||| !listed_for(old(entries)@, strokes(keys@)) && final(entries)@[k] == (
                    keys,
                    binding,
                )
            },
{
    let ghost before = entries@;
    let ghost new = strokes(keys@);
    let mut at: usize = 0;
    while at < entries.len()
        invariant
            at <= entries@.len(),
            entries@ == before,
            before == old(entries)@,
            new == strokes(keys@),
            ordered(before),
            forall|k: int| 0 <= k < at ==> strokes_less(strokes((#[trigger] before[k]).0@), new),
        ensures
            at <= entries@.len(),
            forall|k: int| 0 <= k < at ==> strokes_less(strokes((#[trigger] before[k]).0@), new),
            at < entries@.len() ==> strokes_less(new, strokes(before[at as int].0@)),
        decreases entries.len() - at,
    {
        let other: &Vec<Keystroke> = &entries[at].0;
        if keys_less(other, &keys) {
            at += 1;
        } else if keys_less(&keys, other) {
            break;
        } else {
            proof {
                strokes_are_comparable(strokes(other@), new);
                assert(strokes(before[at as int].0@) == new);
                assert(listed_for(before, new));
            }
            return ;
        }
    }
    entries.insert(at, (keys, binding));
    proof {
        let after = entries@;
        assert forall|i: int, j: int| 0 <= i < j < after.len() implies strokes_less(
            strokes((#[trigger] after[i]).0@),
            strokes((#[trigger] after[j]).0@),
        ) by {
            if i < at && j == at {
                assert(after[i] == before[i]);
            } else if i == at && j > at {
                assert(after[j] == before[j - 1]);
                if j - 1 > at {
                    strokes_less_is_transitive(
                        new,
                        strokes(before[at as int].0@),
                        strokes(before[j - 1].0@),
                    );
                }
            } else {
                let a = if i < at { i } else { i - 1 };
                let b = if j < at { j } else { j - 1 };
                assert(after[i] == before[a]);
                assert(after[j] == before[b]);
            }
        }
        assert(!listed_for(before, new)) by {
            if listed_for(before, new) {
                let k = choose|k: int|
                    0 <= k < before.len() && strokes((#[trigger] before[k]).0@) == new;
                if k > at {
                    strokes_less_is_transitive(
                        new,
                        strokes(before[at as int].0@),
                        strokes(before[k].0@),
                    );
                }
                strokes_less_is_irreflexive(new);
            }
        }
        assert forall|next: Seq<KeystrokeView>| #[trigger] listed_for(after, next) == (listed_for(
            before,
            next,
        ) || next == new) by {
            if listed_for(before, next) {
                let k = choose|k: int|
                    0 <= k < before.len() && strokes((#[trigger] before[k]).0@) == next;
                let m = if k < at { k } else { k + 1 };
                assert(after[m] == before[k]);
            }
            if next == new {
                assert(strokes(after[at as int].0@) == new);
            }
            if listed_for(after, next) && next != new {
                let m = choose|m: int|
                    0 <= m < after.len() && strokes((#[trigger] after[m]).0@) == next;
                let k = if m < at { m } else { m - 1 };
                assert(after[m] == before[k]);
            }
        }
        assert forall|k: int| 0 <= k < after.len() implies ({
            ||| exists|m: int| 0 <= m < before.len() && #[trigger] before[m] == after[k]
            ||| !listed_for(before, new) && after[k] == (keys, binding)
        }) by {
            if k != at {
                let m = if k < at { k } else { k - 1 };
                assert(before[m] == after[k]);
            }
        }
    }
}

impl Default for Matcher {
    fn default() -> (r: Self)
        ensures
            r@.bindings == Seq::<BindingView>::empty(),
            r@.pending == Map::<usize, PendingView>::empty(),
    {
        Matcher::new(Keymap::default())
    }
}

/// Of the bindings that match, the one that was added last gives the action.
pub proof fn later_binding_wins(
    bindings: Seq<BindingView>,
    b: BindingView,
    keys: Seq<KeystrokeView>,
    cx: ContextView,
)
    ensures
        b.matches(keys, cx) ==> latest_match(bindings.push(b), keys, cx) == Some(b.action),
        !b.matches(keys, cx) ==> latest_match(bindings.push(b), keys, cx) == latest_match(
            bindings,
            keys,
            cx,
        ),
{
    assert(bindings.push(b).drop_last() =~= bindings);
}

/// Whatever a keystroke leaves pending can still become a match.
pub proof fn pending_stays_live(
    bindings: Seq<BindingView>,
    first: bool,
    pending: Map<usize, PendingView>,
    key: KeystrokeView,
    path: Seq<(usize, ContextView)>,
    any: bool,
)
    requires
        pending_is_live(bindings, pending),
    ensures
        pending_is_live(bindings, offered(bindings, first, pending, key, path, any).0),
    decreases path.len(),
{
    if path.len() > 0 {
        let (view_id, cx) = path[0];
        let rest = path.skip(1);
        let keys = keys_with(pending, view_id, cx, key);
        let now = PendingView { keystrokes: keys, context: cx };
        if !first && !pending.dom().contains(view_id) {
            pending_stays_live(bindings, first, pending, key, rest, any);
        } else if latest_match(bindings, keys, cx) is None {
            if some_continues(bindings, keys, cx) {
                pending_stays_live(
                    bindings,
                    first,
                    pending.insert(view_id, now),
                    key,
                    rest,
                    true,
                );
            } else {
                pending_stays_live(bindings, first, pending.remove(view_id), key, rest, any);
            }
        }
    }
}

/// Whether a view occurs on a path.
pub open spec fn on_path(path: Seq<(usize, ContextView)>, view_id: usize) -> bool {
    exists|i: int| 0 <= i < path.len() && (#[trigger] path[i]).0 == view_id
}

proof fn lemma_offered_pending(
    bindings: Seq<BindingView>,
    first: bool,
    pending: Map<usize, PendingView>,
    key: KeystrokeView,
    path: Seq<(usize, ContextView)>,
    any: bool,
    view_id: usize,
)
    ensures
        offered(bindings, first, pending, key, path, any).1 is NoMatch ==> !any,
        offered(bindings, first, pending, key, path, any).1 is NoMatch && on_path(path, view_id)
            ==> !offered(bindings, first, pending, key, path, any).0.dom().contains(view_id),
        !on_path(path, view_id) ==> {
            let after = offered(bindings, first, pending, key, path, any).0;
            &&& after.dom().contains(view_id) == pending.dom().contains(view_id)
            &&& pending.dom().contains(view_id) ==> after[view_id] == pending[view_id]
        },
        offered(bindings, first, pending, key, path, any).1 is NoMatch && !pending.dom().contains(
            view_id,
        ) ==> !offered(bindings, first, pending, key, path, any).0.dom().contains(view_id),
    decreases path.len(),
{
    if path.len() > 0 {
        let (id, cx) = path[0];
        let rest = path.skip(1);
        let keys = keys_with(pending, id, cx, key);
        let now = PendingView { keystrokes: keys, context: cx };
        assert(on_path(path, view_id) == (id == view_id || on_path(rest, view_id))) by {
            if on_path(path, view_id) && id != view_id {
                let i = choose|i: int| 0 <= i < path.len() && (#[trigger] path[i]).0 == view_id;
                assert(rest[i - 1].0 == view_id);
            }
            if on_path(rest, view_id) {
                let i = choose|i: int| 0 <= i < rest.len() && (#[trigger] rest[i]).0 == view_id;
                assert(path[i + 1].0 == view_id);
            }
            if id == view_id {
                assert(path[0].0 == view_id);
            }
        }
        if !first && !pending.dom().contains(id) {
            lemma_offered_pending(bindings, first, pending, key, rest, any, view_id);
        } else if latest_match(bindings, keys, cx) is None {
            if some_continues(bindings, keys, cx) {
                lemma_offered_pending(
                    bindings,
                    first,
                    pending.insert(id, now),
                    key,
                    rest,
                    true,
                    view_id,
                );
            } else {
                lemma_offered_pending(
                    bindings,
                    first,
                    pending.remove(id),
                    key,
                    rest,
                    any,
                    view_id,
                );
            }
        }
    }
}

/// A keystroke that leads nowhere leaves nothing pending for the views that it was offered to, so
/// it does not interfere with later keystrokes.
pub proof fn failed_match_leaves_nothing_pending(
    bindings: Seq<BindingView>,
    pending: Map<usize, PendingView>,
    key: KeystrokeView,
    path: Seq<(usize, ContextView)>,
)
    requires
        forall|id: usize| #[trigger] pending.dom().contains(id) ==> on_path(path, id),
    ensures
        ({
            let first = pending == Map::<usize, PendingView>::empty();
            let (after, result) = offered(bindings, first, pending, key, path, false);
            result is NoMatch ==> after == Map::<usize, PendingView>::empty()
        }),
{
    let first = pending == Map::<usize, PendingView>::empty();
    let (after, result) = offered(bindings, first, pending, key, path, false);
    if result is NoMatch {
        assert forall|id: usize| !after.dom().contains(id) by {
            lemma_offered_pending(bindings, first, pending, key, path, false, id);
        }
        assert(after =~= Map::empty());
    }
}

/// Pending keystrokes are kept view by view: a view that is not on the path keeps its own.
pub proof fn pending_is_kept_per_view(
    bindings: Seq<BindingView>,
    first: bool,
    pending: Map<usize, PendingView>,
    key: KeystrokeView,
    path: Seq<(usize, ContextView)>,
    view_id: usize,
)
    requires
        pending.dom().contains(view_id),
        !on_path(path, view_id),
    ensures
        ({
            let after = offered(bindings, first, pending, key, path, false).0;
            after.dom().contains(view_id) && after[view_id] == pending[view_id]
        }),
{
    lemma_offered_pending(bindings, first, pending, key, path, false, view_id);
}

/// When the context of a view has changed, its pending keystrokes no longer count.
pub proof fn context_change_forgets_pending(
    pending: Map<usize, PendingView>,
    view_id: usize,
    cx: ContextView,
    key: KeystrokeView,
)
    requires
        pending.dom().contains(view_id),
        pending[view_id].context != cx,
    ensures
        keys_with(pending, view_id, cx, key) == keys_with(
            pending.remove(view_id),
            view_id,
            cx,
            key,
        ),
        keys_with(pending, view_id, cx, key) == seq![key],
{
}

/// A match takes away what was pending for the view that matched.
pub proof fn match_clears_its_view(
    bindings: Seq<BindingView>,
    first: bool,
    pending: Map<usize, PendingView>,
    key: KeystrokeView,
    path: Seq<(usize, ContextView)>,
    any: bool,
)
    ensures
        ({
            let (after, result) = offered(bindings, first, pending, key, path, any);
            result matches MatchView::Match { view_id, action } ==> !after.dom().contains(view_id)
        }),
    decreases path.len(),
{
    if path.len() > 0 {
        let (id, cx) = path[0];
        let rest = path.skip(1);
        let keys = keys_with(pending, id, cx, key);
        let now = PendingView { keystrokes: keys, context: cx };
        match_clears_its_view(bindings, first, pending, key, rest, any);
        match_clears_its_view(bindings, first, pending.insert(id, now), key, rest, true);
        match_clears_its_view(bindings, first, pending.remove(id), key, rest, any);
    }
}

/// A binding counts in a context if its predicate holds there, and everywhere if it has none.
pub proof fn predicate_admits_the_binding(b: BindingView, cx: ContextView)
    ensures
        b.predicate is None ==> b.applies(cx),
        b.predicate matches Some(p) ==> b.applies(cx) == p.holds(cx),
{
}

/// The action of keystrokes is that of the last binding that is made of them and whose predicate holds;
/// without such a binding there is none.
pub proof fn last_matching_binding_counts(
    bindings: Seq<BindingView>,
    keys: Seq<KeystrokeView>,
    cx: ContextView,
    i: int,
)
    requires
        0 <= i < bindings.len(),
        bindings[i].keystrokes == keys,
        bindings[i].predicate matches Some(p) ==> p.holds(cx),
        forall|j: int|
            i < j < bindings.len() ==> (#[trigger] bindings[j]).keystrokes != keys || (
            bindings[j].predicate matches Some(p) && !p.holds(cx)),
    ensures
        latest_match(bindings, keys, cx) == Some(bindings[i].action),
    decreases bindings.len(),
{
    let init = bindings.drop_last();
    if i < init.len() {
        assert(bindings[bindings.len() - 1].keystrokes != keys || !bindings.last().applies(cx));
        assert(init[i] == bindings[i]);
        assert forall|j: int| i < j < init.len() implies (#[trigger] init[j]).keystrokes != keys || (
        init[j].predicate matches Some(p) && !p.holds(cx)) by {
            assert(init[j] == bindings[j]);
        }
        last_matching_binding_counts(init, keys, cx, i);
    }
}

/// Keystrokes that no binding is made of, or only bindings whose predicates do not hold, have no
/// action.
pub proof fn no_binding_no_action(
    bindings: Seq<BindingView>,
    keys: Seq<KeystrokeView>,
    cx: ContextView,
)
    requires
        forall|j: int|
            0 <= j < bindings.len() ==> (#[trigger] bindings[j]).keystrokes != keys || (
            bindings[j].predicate matches Some(p) && !p.holds(cx)),
    ensures
        latest_match(bindings, keys, cx) is None,
    decreases bindings.len(),
{
    if bindings.len() > 0 {
        let init = bindings.drop_last();
        assert(bindings[bindings.len() - 1].keystrokes != keys || !bindings.last().applies(cx));
        assert forall|j: int| 0 <= j < init.len() implies (#[trigger] init[j]).keystrokes != keys || (
        init[j].predicate matches Some(p) && !p.holds(cx)) by {
            assert(init[j] == bindings[j]);
        }
        no_binding_no_action(init, keys, cx);
    }
}

/// The keystrokes that are shown for an action are those of the last binding for it whose predicate
/// holds; there are none exactly if there is no such binding.
pub proof fn shown_keystrokes_lead_to_the_action(
    bindings: Seq<BindingView>,
    action: ActionView,
    cx: ContextView,
) -> (i: int)
    ensures
        latest_keystrokes(bindings, action, cx) matches Some(keys) ==> {
            &&& 0 <= i < bindings.len()
            &&& bindings[i].keystrokes == keys
            &&& bindings[i].action == action
            &&& bindings[i].predicate matches Some(p) ==> p.holds(cx)
        },
        latest_keystrokes(bindings, action, cx) is None ==> i == -1,
        forall|j: int|
            i < j < bindings.len() && (#[trigger] bindings[j]).action == action ==> (
            bindings[j].predicate matches Some(p) && !p.holds(cx)),
    decreases bindings.len(),
{
    if bindings.len() == 0 {
        -1
    } else if bindings.last().action == action && bindings.last().applies(cx) {
        bindings.len() - 1
    } else {
        let init = bindings.drop_last();
        let i = shown_keystrokes_lead_to_the_action(init, action, cx);
        assert forall|j: int| i < j < bindings.len() && (#[trigger] bindings[j]).action == action implies (
        bindings[j].predicate matches Some(p) && !p.holds(cx)) by {
            if j < init.len() {
                assert(init[j] == bindings[j]);
            }
        }
        i
    }
}

/// What keystrokes would lead to next is told by the last binding that is made of those seen and then
/// of them, and whose predicate holds; there is none exactly if there is no such binding.
pub proof fn offer_completes_what_was_seen(
    bindings: Seq<BindingView>,
    seen: Seq<KeystrokeView>,
    cx: ContextView,
    next: Seq<KeystrokeView>,
) -> (i: int)
    ensures
        latest_offer(bindings, seen, cx, next) matches Some(b) ==> {
            &&& 0 <= i < bindings.len()
            &&& bindings[i] == b
            &&& b.keystrokes == seen + next
            &&& b.predicate matches Some(p) ==> p.holds(cx)
        },
        latest_offer(bindings, seen, cx, next) is None ==> i == -1,
        forall|j: int|
            i < j < bindings.len() && (#[trigger] bindings[j]).keystrokes == seen + next ==> (
            bindings[j].predicate matches Some(p) && !p.holds(cx)),
    decreases bindings.len(),
{
    if bindings.len() == 0 {
        -1
    } else if offers(bindings.last(), seen, cx, next) {
        bindings.len() - 1
    } else {
        let init = bindings.drop_last();
        let i = offer_completes_what_was_seen(init, seen, cx, next);
        assert forall|j: int|
            i < j < bindings.len() && (#[trigger] bindings[j]).keystrokes == seen + next implies (
        bindings[j].predicate matches Some(p) && !p.holds(cx)) by {
            if j < init.len() {
                assert(init[j] == bindings[j]);
            }
        }
        i
    }
}

/// The bindings for a type of action are all those whose action is of it, in their order.
pub proof fn bindings_of_a_type(bindings: Seq<BindingView>, name: Seq<char>)
    ensures
        of_type(bindings, name) == bindings.filter(|b: BindingView| b.action.name == name),
    decreases bindings.len(),
{
    reveal(Seq::filter);
    if bindings.len() > 0 {
        bindings_of_a_type(bindings.drop_last(), name);
    }
}

/// Words are read one by one: each names a keystroke of the list in its place, and if one of them names
/// none, nothing is read, and the first such word is told.
pub proof fn words_name_keystrokes(names: Seq<Seq<char>>) -> (i: int)
    ensures
        keystrokes_of(names) matches Some(keys) ==> {
            &&& keys.len() == names.len()
            &&& forall|k: int| 0 <= k < names.len() ==> keystroke_of(#[trigger] names[k]) == Some(keys[k])
        },
        keystrokes_of(names) is None ==> {
            &&& 0 <= i < names.len()
            &&& keystroke_of(names[i]) is None
            &&& first_invalid(names) == names[i]
            &&& forall|k: int| 0 <= k < i ==> keystroke_of(#[trigger] names[k]) is Some
        },
    decreases names.len(),
{
    if names.len() == 0 {
        0
    } else {
        let init = names.drop_last();
        let i = words_name_keystrokes(init);
        if keystrokes_of(init) is None {
            assert(init[i] == names[i]);
            assert forall|k: int| 0 <= k < i implies keystroke_of(#[trigger] names[k]) is Some by {
                assert(init[k] == names[k]);
            }
            i
        } else {
            assert forall|k: int| 0 <= k < init.len() implies keystroke_of(#[trigger] names[k]) == Some(
                keystrokes_of(init)->0[k],
            ) by {
                assert(init[k] == names[k]);
            }
            names.len() - 1
        }
    }
}

/// The keystrokes that count for a view are those that wait for it in this context and the new one.
pub proof fn waiting_keystrokes_go_on(
    pending: Map<usize, PendingView>,
    view_id: usize,
    cx: ContextView,
    key: KeystrokeView,
)
    ensures
        pending.dom().contains(view_id) && pending[view_id].context == cx ==> keys_with(
            pending,
            view_id,
            cx,
            key,
        ) == pending[view_id].keystrokes.push(key),
        !pending.dom().contains(view_id) ==> keys_with(pending, view_id, cx, key) == seq![key],
{
}

/// Whether no view stands on a path twice.
pub open spec fn views_differ(path: Seq<(usize, ContextView)>) -> bool {
    forall|i: int, j: int| 0 <= i < j < path.len() ==> (#[trigger] path[i]).0 != (#[trigger] path[j]).0
}

/// Whether the keystroke leads to an action at a place of the path: the view takes part, and a binding
/// is made of the keystrokes that count for it.
pub open spec fn matches_at(
    bindings: Seq<BindingView>,
    pending: Map<usize, PendingView>,
    first: bool,
    key: KeystrokeView,
    path: Seq<(usize, ContextView)>,
    i: int,
) -> bool {
    &&& first || pending.dom().contains(path[i].0)
    &&& latest_match(bindings, keys_with(pending, path[i].0, path[i].1, key), path[i].1) is Some
}

/// Whether the keystroke is the beginning of something at a place of the path.
pub open spec fn begins_at(
    bindings: Seq<BindingView>,
    pending: Map<usize, PendingView>,
    first: bool,
    key: KeystrokeView,
    path: Seq<(usize, ContextView)>,
    i: int,
) -> bool {
    &&& first || pending.dom().contains(path[i].0)
    &&& exists|b: int|
        0 <= b < bindings.len() && (#[trigger] bindings[b]).continues(
            keys_with(pending, path[i].0, path[i].1, key),
            path[i].1,
        )
}

/// The innermost view at which a keystroke leads to an action gets it. If there is none, the keystroke
/// waits exactly if it is the beginning of something at some view.
pub proof fn innermost_match_counts(
    bindings: Seq<BindingView>,
    first: bool,
    pending: Map<usize, PendingView>,
    key: KeystrokeView,
    path: Seq<(usize, ContextView)>,
    any: bool,
    i: int,
)
    requires
        views_differ(path),
        0 <= i <= path.len(),
        i < path.len() ==> matches_at(bindings, pending, first, key, path, i),
        forall|j: int| 0 <= j < i ==> !#[trigger] matches_at(bindings, pending, first, key, path, j),
    ensures
        ({
            let result = offered(bindings, first, pending, key, path, any).1;
            &&& i < path.len() ==> {
                let keys = keys_with(pending, path[i].0, path[i].1, key);
                result == MatchView::Match {
                    view_id: path[i].0,
                    action: latest_match(bindings, keys, path[i].1)->0,
                }
            }
            &&& i == path.len() ==> (result is Pending <==> any || exists|j: int|
                0 <= j < path.len() && #[trigger] begins_at(bindings, pending, first, key, path, j))
            &&& i == path.len() ==> (result is Pending || result is NoMatch)
        }),
    decreases path.len(),
{
    if path.len() > 0 && i > 0 {
        let (view_id, cx) = path[0];
        let rest = path.skip(1);
        let keys = keys_with(pending, view_id, cx, key);
        assert(!matches_at(bindings, pending, first, key, path, 0));
        let takes_part = first || pending.dom().contains(view_id);
        let continues = some_continues(bindings, keys, cx);
        assert(begins_at(bindings, pending, first, key, path, 0) == (takes_part && continues));
        let next = if !takes_part {
            pending
        } else if continues {
            pending.insert(view_id, PendingView { keystrokes: keys, context: cx })
        } else {
            pending.remove(view_id)
        };
        let waits = if takes_part && continues {
            true
        } else {
            any
        };
        assert forall|m: int, n: int| 0 <= m < n < rest.len() implies (#[trigger] rest[m]).0 != (
        #[trigger] rest[n]).0 by {
            assert(path[m + 1].0 != path[n + 1].0);
        }
        assert forall|j: int| 0 <= j < rest.len() implies #[trigger] matches_at(
            bindings,
            next,
            first,
            key,
            rest,
            j,
        ) == matches_at(bindings, pending, first, key, path, j + 1) && begins_at(
            bindings,
            next,
            first,
            key,
            rest,
            j,
        ) == begins_at(bindings, pending, first, key, path, j + 1) && keys_with(
            next,
            rest[j].0,
            rest[j].1,
            key,
        ) == keys_with(pending, path[j + 1].0, path[j + 1].1, key) by {
            assert(rest[j] == path[j + 1]);
            assert(path[0].0 != path[j + 1].0);
        }
        assert forall|j: int| 0 <= j < i - 1 implies !#[trigger] matches_at(
            bindings,
            next,
            first,
            key,
            rest,
            j,
        ) by {
            assert(!matches_at(bindings, pending, first, key, path, j + 1));
        }
        if i < path.len() {
            assert(matches_at(bindings, next, first, key, rest, i - 1));
            assert(rest[i - 1] == path[i]);
        }
        innermost_match_counts(bindings, first, next, key, rest, waits, i - 1);
        if i == path.len() {
            if exists|j: int|
                0 <= j < path.len() && #[trigger] begins_at(bindings, pending, first, key, path, j) {
                let j = choose|j: int|
                    0 <= j < path.len() && #[trigger] begins_at(
                        bindings,
                        pending,
                        first,
                        key,
                        path,
                        j,
                    );
                if j > 0 {
                    assert(matches_at(bindings, next, first, key, rest, j - 1) == matches_at(
                        bindings,
                        pending,
                        first,
                        key,
                        path,
                        j,
                    ));
                    assert(begins_at(bindings, next, first, key, rest, j - 1));
                }
            }
            if exists|j: int|
                0 <= j < rest.len() && #[trigger] begins_at(bindings, next, first, key, rest, j) {
                let j = choose|j: int|
                    0 <= j < rest.len() && #[trigger] begins_at(bindings, next, first, key, rest, j);
                assert(matches_at(bindings, next, first, key, rest, j) == matches_at(
                    bindings,
                    pending,
                    first,
                    key,
                    path,
                    j + 1,
                ));
                assert(begins_at(bindings, pending, first, key, path, j + 1));
            }
        }
    }
}

/// A binding goes on after keystrokes if it begins with them, is longer, and its predicate holds.
pub proof fn longer_binding_goes_on(b: BindingView, keys: Seq<KeystrokeView>, cx: ContextView)
    ensures
        b.continues(keys, cx) <==> keys.len() < b.keystrokes.len() && b.keystrokes.take(
            keys.len() as int,
        ) == keys && (b.predicate matches Some(p) ==> p.holds(cx)),
        b.matches(keys, cx) <==> b.keystrokes == keys && (b.predicate matches Some(p) ==> p.holds(cx)),
{
    if keys.len() < b.keystrokes.len() {
        assert(b.keystrokes.take(keys.len() as int) =~= b.keystrokes.subrange(
            0,
            keys.len() as int,
        ));
    }
}

/// What a keystroke began at a view waits there, in its context, unless a view further in got an
/// action; a view at which it led nowhere has nothing waiting.
pub proof fn beginnings_wait_at_their_view(
    bindings: Seq<BindingView>,
    first: bool,
    pending: Map<usize, PendingView>,
    key: KeystrokeView,
    path: Seq<(usize, ContextView)>,
    any: bool,
    i: int,
)
    requires
        views_differ(path),
        0 <= i < path.len(),
        first || pending.dom().contains(path[i].0),
        forall|j: int| 0 <= j <= i ==> !#[trigger] matches_at(bindings, pending, first, key, path, j),
    ensures
        ({
            let after = offered(bindings, first, pending, key, path, any).0;
            let keys = keys_with(pending, path[i].0, path[i].1, key);
            if begins_at(bindings, pending, first, key, path, i) {
                after.dom().contains(path[i].0) && after[path[i].0] == (PendingView {
                    keystrokes: keys,
                    context: path[i].1,
                })
            } else {
                !after.dom().contains(path[i].0)
            }
        }),
    decreases path.len(),
{
    let (view_id, cx) = path[0];
    let rest = path.skip(1);
    let keys = keys_with(pending, view_id, cx, key);
    assert(!matches_at(bindings, pending, first, key, path, 0));
    let takes_part = first || pending.dom().contains(view_id);
    let continues = some_continues(bindings, keys, cx);
    assert(begins_at(bindings, pending, first, key, path, 0) == (takes_part && continues));
    let next = if !takes_part {
        pending
    } else if continues {
        pending.insert(view_id, PendingView { keystrokes: keys, context: cx })
    } else {
        pending.remove(view_id)
    };
    let waits = if takes_part && continues {
        true
    } else {
        any
    };
    assert forall|m: int, n: int| 0 <= m < n < rest.len() implies (#[trigger] rest[m]).0 != (
    #[trigger] rest[n]).0 by {
        assert(path[m + 1].0 != path[n + 1].0);
    }
    if i > 0 {
        assert forall|j: int| 0 <= j < rest.len() implies #[trigger] matches_at(
            bindings,
            next,
            first,
            key,
            rest,
            j,
        ) == matches_at(bindings, pending, first, key, path, j + 1) && begins_at(
            bindings,
            next,
            first,
            key,
            rest,
            j,
        ) == begins_at(bindings, pending, first, key, path, j + 1) && keys_with(
            next,
            rest[j].0,
            rest[j].1,
            key,
        ) == keys_with(pending, path[j + 1].0, path[j + 1].1, key) by {
            assert(rest[j] == path[j + 1]);
            assert(path[0].0 != path[j + 1].0);
        }
        assert forall|j: int| 0 <= j <= i - 1 implies !#[trigger] matches_at(
            bindings,
            next,
            first,
            key,
            rest,
            j,
        ) by {
            assert(!matches_at(bindings, pending, first, key, path, j + 1));
        }
        assert(matches_at(bindings, next, first, key, rest, i - 1) == matches_at(
            bindings,
            pending,
            first,
            key,
            path,
            i,
        ));
        assert(rest[i - 1] == path[i]);
        assert(path[0].0 != path[i].0);
        beginnings_wait_at_their_view(bindings, first, next, key, rest, waits, i - 1);
    } else {
        assert(!on_path(rest, view_id)) by {
            if on_path(rest, view_id) {
                let j = choose|j: int| 0 <= j < rest.len() && (#[trigger] rest[j]).0 == view_id;
                assert(path[0].0 != path[j + 1].0);
            }
        }
        lemma_others_are_left_alone(bindings, first, next, key, rest, waits, view_id);
    }
}

proof fn lemma_others_are_left_alone(
    bindings: Seq<BindingView>,
    first: bool,
    pending: Map<usize, PendingView>,
    key: KeystrokeView,
    path: Seq<(usize, ContextView)>,
    any: bool,
    view_id: usize,
)
    requires
        !on_path(path, view_id),
    ensures
        ({
            let after = offered(bindings, first, pending, key, path, any).0;
            &&& after.dom().contains(view_id) == pending.dom().contains(view_id)
            &&& pending.dom().contains(view_id) ==> after[view_id] == pending[view_id]
        }),
    decreases path.len(),
{
    if path.len() > 0 {
        let (id, cx) = path[0];
        let rest = path.skip(1);
        assert(path[0].0 != view_id);
        assert(!on_path(rest, view_id)) by {
            if on_path(rest, view_id) {
                let j = choose|j: int| 0 <= j < rest.len() && (#[trigger] rest[j]).0 == view_id;
                assert(path[j + 1].0 == view_id);
            }
        }
        let keys = keys_with(pending, id, cx, key);
        let now = PendingView { keystrokes: keys, context: cx };
        lemma_others_are_left_alone(bindings, first, pending, key, rest, any, view_id);
        lemma_others_are_left_alone(
            bindings,
            first,
            pending.insert(id, now),
            key,
            rest,
            true,
            view_id,
        );
        lemma_others_are_left_alone(bindings, first, pending.remove(id), key, rest, any, view_id);
    }
}

} // verus!
