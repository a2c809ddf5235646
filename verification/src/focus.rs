//! Handles of what can have the focus in a window, and where the focus is.
use vstd::prelude::*;

verus! {

/// A key of a slot map, which tells nothing of itself.
#[verifier::external_type_specification]
#[verifier::external_body]
pub struct ExDefaultKey(slotmap::DefaultKey);

/// Something that can have the focus.
#[derive(Clone, Copy)]
pub struct FocusId {
    key: slotmap::DefaultKey,
}

/// How many handles there are of everything that can have the focus, kept in a `SlotMap`.
#[verifier::external_body]
pub struct FocusHandles {
    inner: slotmap::SlotMap<slotmap::DefaultKey, usize>,
}

/// The counts by key.
pub uninterp spec fn counts_by_key(handles: FocusHandles) -> Map<slotmap::DefaultKey, usize>;

/// A map without counts.
pub open spec fn nothing_counted() -> Map<slotmap::DefaultKey, usize> {
    Map::empty()
}

/// `SlotMap::with_key`: a map that holds nothing.
#[verifier::external_body]
fn no_handles() -> (r: FocusHandles)
    ensures
        counts_by_key(r) == nothing_counted(),
{
    FocusHandles { inner: slotmap::SlotMap::with_key() }
}

/// `SlotMap::insert` puts a value under a key that the map does not hold. A map that has used all
/// its slots would panic; it has one slot less than there are 32-bit numbers below the greatest, and
/// uses a new one only when no key that was removed has left one.
#[verifier::external_body]
fn insert_count(handles: &mut FocusHandles, count: usize) -> (key: slotmap::DefaultKey)
    requires
        counts_by_key(*old(handles)).len() < u32::MAX - 1,
    ensures
        !counts_by_key(*old(handles)).dom().contains(key),
        counts_by_key(*final(handles)) == counts_by_key(*old(handles)).insert(key, count),
{
    handles.inner.insert(count)
}

/// `SlotMap::get` gives the value under a key, if the map holds the key.
#[verifier::external_body]
fn get_count(handles: &FocusHandles, key: slotmap::DefaultKey) -> (r: Option<usize>)
    ensures
        r == (if counts_by_key(*handles).dom().contains(key) {
            Some(counts_by_key(*handles)[key])
        } else {
            None
        }),
{
    handles.inner.get(key).copied()
}

/// `SlotMap::get_mut` lets the value under a key be replaced, if the map holds the key.
#[verifier::external_body]
fn set_count(handles: &mut FocusHandles, key: slotmap::DefaultKey, count: usize)
    ensures
        counts_by_key(*final(handles)) == (if counts_by_key(*old(handles)).dom().contains(key) {
            counts_by_key(*old(handles)).insert(key, count)
        } else {
            counts_by_key(*old(handles))
        }),
{
    if let Some(slot) = handles.inner.get_mut(key) {
        *slot = count;
    }
}

/// `DefaultKey` is equal to another exactly if it is the same key.
#[verifier::external_body]
fn same_key(a: slotmap::DefaultKey, b: slotmap::DefaultKey) -> (r: bool)
    ensures
        r == (a == b),
{
    a == b
}

impl FocusId {
    /// The key of the slot map.
    pub closed spec fn key(self) -> slotmap::DefaultKey {
        self.key
    }

    /// Whether two are the same.
    pub fn same(&self, other: &FocusId) -> (r: bool)
        ensures
            r == (*self == *other),
    {
        same_key(self.key, other.key)
    }
}

impl View for FocusHandles {
    type V = Map<slotmap::DefaultKey, usize>;

    open spec fn view(&self) -> Map<slotmap::DefaultKey, usize> {
        counts_by_key(*self)
    }
}

/// Whether there is a handle of something.
pub open spec fn held(counts: Map<slotmap::DefaultKey, usize>, id: FocusId) -> bool {
    counts.dom().contains(id.key()) && counts[id.key()] > 0
}

impl FocusHandles {
    /// No handles.
    pub fn new() -> (r: FocusHandles)
        ensures
            r@ == nothing_counted(),
    {
        no_handles()
    }

    /// Makes something new that can have the focus, with one handle.
    pub fn add(&mut self) -> (id: FocusId)
        requires
            old(self)@.len() < u32::MAX - 1,
        ensures
            !old(self)@.dom().contains(id.key()),
            final(self)@ == old(self)@.insert(id.key(), 1),
    {
        FocusId { key: insert_count(self, 1) }
    }

    /// Makes another handle, if there still is one.
    pub fn for_id(&mut self, id: FocusId) -> (r: bool)
        requires
            old(self)@.dom().contains(id.key()) ==> old(self)@[id.key()] < usize::MAX,
        ensures
            r == held(old(self)@, id),
            final(self)@ == (if r {
                old(self)@.insert(id.key(), (old(self)@[id.key()] + 1) as usize)
            } else {
                old(self)@
            }),
    {
        match get_count(self, id.key) {
            None => false,
            Some(count) => if count == 0 {
                false
            } else {
                set_count(self, id.key, count + 1);
                true
            },
        }
    }

    /// Whether there is a handle.
    pub fn is_held(&self, id: FocusId) -> (r: bool)
        ensures
            r == held(self@, id),
    {
        match get_count(self, id.key) {
            None => false,
            Some(count) => count > 0,
        }
    }

    /// A handle goes.
    pub fn drop_handle(&mut self, id: FocusId)
        requires
            old(self)@.dom().contains(id.key()),
            old(self)@[id.key()] > 0,
        ensures
            final(self)@ == old(self)@.insert(id.key(), (old(self)@[id.key()] - 1) as usize),
    {
        if let Some(count) = get_count(self, id.key) {
            set_count(self, id.key, count - 1);
        }
    }
}

/// A handle that comes and goes leaves the counts as they were.
pub proof fn passing_handle_changes_nothing(
    counts: Map<slotmap::DefaultKey, usize>,
    key: slotmap::DefaultKey,
)
    requires
        counts.dom().contains(key),
        0 < counts[key] < usize::MAX,
    ensures
        ({
            let more = counts.insert(key, (counts[key] + 1) as usize);
            more.insert(key, (more[key] - 1) as usize) == counts
        }),
{
    let more = counts.insert(key, (counts[key] + 1) as usize);
    assert(more.insert(key, (more[key] - 1) as usize) =~= counts);
}

/// Where the focus is in a window, and which elements that can have it are in which others.
pub struct FocusTree {
    stack: Vec<FocusId>,
    parents: Vec<(FocusId, FocusId)>,
    focus: Option<FocusId>,
    last_blur: Option<Option<FocusId>>,
}

/// The meaning of the tree: the elements around the one that is being painted, the parent of each
/// element, what has the focus, and what had it when it was last told.
#[verifier::ext_equal]
pub struct FocusTreeView {
    pub stack: Seq<FocusId>,
    pub parents: Map<FocusId, FocusId>,
    pub focus: Option<FocusId>,
    pub last_blur: Option<Option<FocusId>>,
}

/// The parents that were noted, the last for each child.
pub open spec fn parent_map(pairs: Seq<(FocusId, FocusId)>) -> Map<FocusId, FocusId>
    decreases pairs.len(),
{
    if pairs.len() == 0 {
        Map::empty()
    } else {
        parent_map(pairs.drop_last()).insert(pairs.last().0, pairs.last().1)
    }
}

impl View for FocusTree {
    type V = FocusTreeView;

    closed spec fn view(&self) -> FocusTreeView {
        FocusTreeView {
            stack: self.stack@,
            parents: parent_map(self.parents@),
            focus: self.focus,
            last_blur: self.last_blur,
        }
    }
}

/// What has the focus, if there still is a handle of it.
pub open spec fn focused_among(
    tree: FocusTreeView,
    counts: Map<slotmap::DefaultKey, usize>,
) -> Option<FocusId> {
    match tree.focus {
        Some(focus) if held(counts, focus) => Some(focus),
        _ => None,
    }
}

/// The ancestor of an element so many steps up, if there is one.
pub open spec fn ancestor(parents: Map<FocusId, FocusId>, id: FocusId, steps: nat) -> Option<FocusId>
    decreases steps,
{
    if steps == 0 {
        Some(id)
    } else {
        match ancestor(parents, id, (steps - 1) as nat) {
            None => None,
            Some(a) => if parents.dom().contains(a) {
                Some(parents[a])
            } else {
                None
            },
        }
    }
}

/// Whether an element is another one or is around it.
pub open spec fn is_around(parents: Map<FocusId, FocusId>, outer: FocusId, inner: FocusId) -> bool {
    exists|steps: nat| #[trigger] ancestor(parents, inner, steps) == Some(outer)
}

/// Whether the elements around an element come to an end.
pub open spec fn has_root(parents: Map<FocusId, FocusId>, id: FocusId) -> bool {
    exists|steps: nat| #[trigger] ancestor(parents, id, steps) is None
}

proof fn lemma_no_ancestor_beyond(
    parents: Map<FocusId, FocusId>,
    id: FocusId,
    steps: nat,
    more: nat,
)
    requires
        ancestor(parents, id, steps) is None,
        steps <= more,
    ensures
        ancestor(parents, id, more) is None,
    decreases more,
{
    if steps < more {
        lemma_no_ancestor_beyond(parents, id, steps, (more - 1) as nat);
    }
}

/// The tree after the focus has gone somewhere.
pub open spec fn focus_moved(tree: FocusTreeView, to: Option<FocusId>) -> FocusTreeView {
    FocusTreeView {
        focus: to,
        last_blur: if tree.last_blur is None {
            Some(tree.focus)
        } else {
            tree.last_blur
        },
        ..tree
    }
}

/// However often the focus moves before that is told, what had it first is what lost it.
pub proof fn first_blur_counts(tree: FocusTreeView, a: Option<FocusId>, b: Option<FocusId>)
    requires
        tree.last_blur is None,
    ensures
        focus_moved(focus_moved(tree, a), b).last_blur == Some(tree.focus),
        focus_moved(focus_moved(tree, a), b).focus == b,
{
}

/// An element is around itself, and what is around its parent is around it.
pub proof fn around_goes_up(parents: Map<FocusId, FocusId>, outer: FocusId, inner: FocusId)
    ensures
        is_around(parents, inner, inner),
        parents.dom().contains(inner) && is_around(parents, outer, parents[inner]) ==> is_around(
            parents,
            outer,
            inner,
        ),
{
    assert(ancestor(parents, inner, 0) == Some(inner));
    if parents.dom().contains(inner) && is_around(parents, outer, parents[inner]) {
        let steps = choose|steps: nat| #[trigger]
            ancestor(parents, parents[inner], steps) == Some(outer);
        lemma_ancestor_of_parent(parents, inner, steps);
        assert(ancestor(parents, inner, steps + 1) == Some(outer));
    }
}

proof fn lemma_ancestor_of_parent(parents: Map<FocusId, FocusId>, id: FocusId, steps: nat)
    requires
        parents.dom().contains(id),
    ensures
        ancestor(parents, id, steps + 1) == ancestor(parents, parents[id], steps),
    decreases steps,
{
    if steps == 0 {
        assert(ancestor(parents, id, 0) == Some(id));
        assert(ancestor(parents, id, 1) == Some(parents[id]));
    } else {
        lemma_ancestor_of_parent(parents, id, (steps - 1) as nat);
    }
}

impl FocusTree {
    /// Nothing has the focus.
    pub fn new() -> (r: FocusTree)
        ensures
            r@ == (FocusTreeView {
                stack: Seq::empty(),
                parents: Map::empty(),
                focus: None,
                last_blur: None,
            }),
    {
        FocusTree { stack: Vec::new(), parents: Vec::new(), focus: None, last_blur: None }
    }

    /// Forgets which elements are in which, before they are painted again.
    pub fn start_frame(&mut self)
        ensures
            final(self)@ == (FocusTreeView { parents: Map::empty(), ..old(self)@ }),
    {
        self.parents = Vec::new();
    }

    /// Goes into an element that can have the focus; tells whether it has it.
    pub fn enter(&mut self, id: FocusId) -> (focused: bool)
        ensures
            focused == (old(self)@.focus == Some(id)),
            final(self)@ == (FocusTreeView {
                stack: old(self)@.stack.push(id),
                parents: if old(self)@.stack.len() == 0 {
                    old(self)@.parents
                } else {
                    old(self)@.parents.insert(id, old(self)@.stack.last())
                },
                ..old(self)@
            }),
    {
        let n: usize = self.stack.len();
        if n > 0 {
            let parent: FocusId = self.stack[n - 1];
            let ghost before = self.parents@;
            self.parents.push((id, parent));
            assert(self.parents@.drop_last() =~= before);
        }
        self.stack.push(id);
        match self.focus {
            Some(focus) => focus.same(&id),
            None => false,
        }
    }

    /// Comes out of an element.
    pub fn leave(&mut self) -> (r: Option<FocusId>)
        ensures
            old(self)@.stack.len() == 0 ==> r is None && final(self)@ == old(self)@,
            old(self)@.stack.len() > 0 ==> r == Some(old(self)@.stack.last()) && final(self)@ == (
            FocusTreeView { stack: old(self)@.stack.drop_last(), ..old(self)@ }),
    {
        self.stack.pop()
    }

    /// Gives the focus to an element.
    pub fn focus(&mut self, id: FocusId)
        ensures
            final(self)@ == focus_moved(old(self)@, Some(id)),
    {
        if self.last_blur.is_none() {
            self.last_blur = Some(self.focus);
        }
        self.focus = Some(id);
    }

    /// Takes the focus away.
    pub fn blur(&mut self)
        ensures
            final(self)@ == focus_moved(old(self)@, None),
    {
        if self.last_blur.is_none() {
            self.last_blur = Some(self.focus);
        }
        self.focus = None;
    }

    /// Whether an element has the focus.
    pub fn is_focused(&self, id: FocusId) -> (r: bool)
        ensures
            r == (self@.focus == Some(id)),
    {
        match self.focus {
            Some(focus) => focus.same(&id),
            None => false,
        }
    }

    fn parent(&self, id: FocusId) -> (r: Option<FocusId>)
        ensures
            r == (if self@.parents.dom().contains(id) {
                Some(self@.parents[id])
            } else {
                None
            }),
    {
        let ghost all = self.parents@;
        let mut i: usize = self.parents.len();
        assert(all.take(i as int) =~= all);
        while i > 0
            invariant
                i <= self.parents.len(),
                all == self.parents@,
                parent_map(all).dom().contains(id) == parent_map(
                    all.take(i as int),
                ).dom().contains(id),
                parent_map(all).dom().contains(id) ==> parent_map(all)[id] == parent_map(
                    all.take(i as int),
                )[id],
            decreases i,
        {
            i -= 1;
            assert(all.take(i + 1).drop_last() =~= all.take(i as int));
            if self.parents[i].0.same(&id) {
                return Some(self.parents[i].1);
            }
        }
        None
    }

    /// What has the focus, if there still is a handle of it.
    pub fn focused(&self, handles: &FocusHandles) -> (r: Option<FocusId>)
        ensures
            r == focused_among(self@, handles@),
    {
        match self.focus {
            Some(focus) => if handles.is_held(focus) {
                Some(focus)
            } else {
                None
            },
            None => None,
        }
    }

    /// Whether an element is another one or is around it. Elements that are within themselves have
    /// no end of elements around them: among those it can only be found.
    pub fn contains(&self, outer: FocusId, inner: FocusId) -> (r: bool)
        requires
            has_root(self@.parents, inner) || is_around(self@.parents, outer, inner),
        ensures
            r == is_around(self@.parents, outer, inner),
    {
        let ghost parents = self@.parents;
        let ghost last = choose|steps: nat| #[trigger]
            ancestor(parents, inner, steps) is None || ancestor(parents, inner, steps) == Some(
                outer,
            );
        let ghost mut steps: nat = 0;
        let mut current: Option<FocusId> = Some(inner);
        proof {
            if has_root(parents, inner) {
                let root = choose|steps: nat| #[trigger] ancestor(parents, inner, steps) is None;
                assert(ancestor(parents, inner, root) is None);
            } else {
                let place = choose|steps: nat| #[trigger]
                    ancestor(parents, inner, steps) == Some(outer);
                assert(ancestor(parents, inner, place) == Some(outer));
            }
        }
        loop
            invariant
                parents == self@.parents,
                ancestor(parents, inner, last) is None || ancestor(parents, inner, last) == Some(
                    outer,
                ),
                current == ancestor(parents, inner, steps),
                forall|k: nat| k < steps ==> #[trigger] ancestor(parents, inner, k) != Some(outer),
            decreases last - steps,
        {
            match current {
                None => {
                    proof {
                        assert forall|k: nat| #[trigger]
                            ancestor(parents, inner, k) != Some(outer) by {
                            if k >= steps {
                                lemma_no_ancestor_beyond(parents, inner, steps, k);
                            }
                        }
                    }
                    return false;
                },
                Some(id) => {
                    if outer.same(&id) {
                        assert(ancestor(parents, inner, steps) == Some(outer));
                        return true;
                    }
                    proof {
                        if steps >= last {
                            if ancestor(parents, inner, last) is None {
                                lemma_no_ancestor_beyond(parents, inner, last, steps);
                            }
                        }
                        steps = steps + 1;
                    }
                    current = self.parent(id);
                },
            }
        }
    }

    /// Whether the focus is in an element.
    pub fn contains_focused(&self, id: FocusId, handles: &FocusHandles) -> (r: bool)
        requires
            focused_among(self@, handles@) matches Some(focus) ==> has_root(self@.parents, focus)
                || is_around(self@.parents, id, focus),
        ensures
            r == (focused_among(self@, handles@) matches Some(focus) && is_around(
                self@.parents,
                id,
                focus,
            )),
    {
        match self.focused(handles) {
            Some(focus) => self.contains(id, focus),
            None => false,
        }
    }

    /// Whether an element is in the one that has the focus.
    pub fn within_focused(&self, id: FocusId, handles: &FocusHandles) -> (r: bool)
        requires
            focused_among(self@, handles@) matches Some(focus) ==> has_root(self@.parents, id)
                || is_around(self@.parents, focus, id),
        ensures
            r == (focused_among(self@, handles@) matches Some(focus) && is_around(
                self@.parents,
                focus,
                id,
            )),
    {
        match self.focused(handles) {
            Some(focus) => self.contains(focus, id),
            None => false,
        }
    }
}

impl Default for FocusTree {
    fn default() -> (r: Self)
        ensures
            r@ == (FocusTreeView {
                stack: Seq::empty(),
                parents: Map::empty(),
                focus: None,
                last_blur: None,
            }),
    {
        FocusTree::new()
    }
}

/// The last pair of an element says what is around it, and an element without a pair is on its own.
pub proof fn last_parent_counts(pairs: Seq<(FocusId, FocusId)>, i: int, id: FocusId)
    requires
        -1 <= i < pairs.len(),
        i >= 0 ==> pairs[i].0 == id,
        forall|j: int| i < j < pairs.len() && 0 <= j ==> (#[trigger] pairs[j]).0 != id,
    ensures
        i >= 0 ==> parent_map(pairs).dom().contains(id) && parent_map(pairs)[id] == pairs[i].1,
        i == -1 ==> !parent_map(pairs).dom().contains(id),
    decreases pairs.len(),
{
    if pairs.len() > 0 && i < pairs.len() - 1 {
        assert(pairs[pairs.len() - 1].0 != id);
        assert forall|j: int| i < j < pairs.drop_last().len() && 0 <= j implies (
        #[trigger] pairs.drop_last()[j]).0 != id by {
            assert(pairs[j].0 != id);
        }
        last_parent_counts(pairs.drop_last(), i, id);
    }
}

/// Focus counts as long as somebody holds a handle of it.
pub proof fn focus_is_held(tree: FocusTreeView, counts: Map<slotmap::DefaultKey, usize>)
    ensures
        focused_among(tree, counts) matches Some(id) ==> tree.focus == Some(id)
            && counts.dom().contains(id.key()) && counts[id.key()] > 0,
        tree.focus matches Some(id) ==> (counts.dom().contains(id.key()) && counts[id.key()] > 0
            ==> focused_among(tree, counts) == Some(id)),
        tree.focus is None ==> focused_among(tree, counts) is None,
{
}

/// The ancestors of an element are itself, what is around it, and the ancestors of that.
pub proof fn ancestors_are_around(parents: Map<FocusId, FocusId>, id: FocusId, steps: nat)
    ensures
        ancestor(parents, id, 0) == Some(id),
        parents.dom().contains(id) ==> ancestor(parents, id, steps + 1) == ancestor(
            parents,
            parents[id],
            steps,
        ),
        !parents.dom().contains(id) ==> ancestor(parents, id, steps + 1) is None,
    decreases steps,
{
    if steps > 0 {
        ancestors_are_around(parents, id, (steps - 1) as nat);
    } else {
        reveal_with_fuel(ancestor, 2);
    }
}

/// Moving focus changes what is focused, and remembers what was focused before all else.
pub proof fn moving_focus_keeps_the_tree(tree: FocusTreeView, to: Option<FocusId>)
    ensures
        focus_moved(tree, to).focus == to,
        focus_moved(tree, to).stack == tree.stack,
        focus_moved(tree, to).parents == tree.parents,
        tree.last_blur is Some ==> focus_moved(tree, to).last_blur == tree.last_blur,
        tree.last_blur is None ==> focus_moved(tree, to).last_blur == Some(tree.focus),
{
}

/// An element on its own is its own root, and one around which there is a rooted element has a root.
pub proof fn rooted_elements(parents: Map<FocusId, FocusId>, id: FocusId)
    ensures
        !parents.dom().contains(id) ==> has_root(parents, id),
        parents.dom().contains(id) && has_root(parents, parents[id]) ==> has_root(parents, id),
{
    if !parents.dom().contains(id) {
        ancestors_are_around(parents, id, 0);
        assert(ancestor(parents, id, 1) is None);
    } else if has_root(parents, parents[id]) {
        let steps = choose|steps: nat| #[trigger] ancestor(parents, parents[id], steps) is None;
        ancestors_are_around(parents, id, steps);
        assert(ancestor(parents, id, steps + 1) is None);
    }
}

} // verus!
