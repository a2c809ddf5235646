//! Counting the handles of models, views and element states: what has none left is dropped.
use vstd::prelude::*;
use std::collections::HashMap;

verus! {

broadcast use vstd::std_specs::hash::group_hash_axioms;

/// Where an entity is: a model, or a view in a window.
#[derive(Clone, Copy, Debug, PartialEq, Eq, Structural)]
pub enum EntityLocation {
    Model(usize),
    View(usize, usize),
}

impl EntityLocation {
    /// The number of the entity.
    pub open spec fn id(self) -> usize {
        match self {
            EntityLocation::Model(id) => id,
            EntityLocation::View(_, id) => id,
        }
    }

    /// Tells the number of the entity.
    pub fn entity_id(&self) -> (r: usize)
        ensures
            r == self.id(),
    {
        match self {
            EntityLocation::Model(id) => *id,
            EntityLocation::View(_, id) => *id,
        }
    }
}

/// Which state of an element: that of the whole, or of a part of it.
#[derive(Clone, Copy, Debug, PartialEq, Eq, Hash, Structural)]
pub struct ElementStateId(pub usize, pub usize);

impl ElementStateId {
    /// The state of a whole element.
    pub fn of_element(id: usize) -> (r: ElementStateId)
        ensures
            r == ElementStateId(id, 0),
    {
        ElementStateId(id, 0)
    }

    /// The state of a part of an element.
    pub fn of_part(id: (usize, usize)) -> (r: ElementStateId)
        ensures
            r == ElementStateId(id.0, id.1),
    {
        ElementStateId(id.0, id.1)
    }
}

/// An element state: what kind of thing it belongs to, and which one.
#[derive(Clone, Copy, Debug, PartialEq, Eq, Structural)]
pub struct ElementKey {
    pub tag: u64,
    pub id: ElementStateId,
}

/// Whether the members of a list are all different.
pub open spec fn no_repeats<T>(list: Seq<T>) -> bool {
    forall|i: int, j: int| 0 <= i < j < list.len() ==> list[i] != list[j]
}

/// Handles and what was dropped.
pub struct RefCounts {
    entity_counts: HashMap<usize, usize>,
    element_state_counts: Vec<(ElementKey, usize)>,
    dropped_entities: Vec<EntityLocation>,
    dropped_element_states: Vec<ElementKey>,
}

/// The meaning of the counts. What has no handle has no count.
#[verifier::ext_equal]
pub struct CountsView {
    pub entities: Map<usize, usize>,
    pub elements: Map<ElementKey, usize>,
    pub dropped_entities: Set<EntityLocation>,
    pub dropped_elements: Set<ElementKey>,
}

spec fn element_counts(list: Seq<(ElementKey, usize)>) -> Map<ElementKey, usize>
    decreases list.len(),
{
    if list.len() == 0 {
        Map::empty()
    } else {
        element_counts(list.drop_last()).insert(list.last().0, list.last().1)
    }
}

spec fn keys_differ(list: Seq<(ElementKey, usize)>) -> bool {
    forall|i: int, j: int| 0 <= i < j < list.len() ==> (#[trigger] list[i]).0 != (#[trigger] list[j]).0
}

proof fn lemma_counts(list: Seq<(ElementKey, usize)>)
    requires
        keys_differ(list),
    ensures
        forall|i: int|
            0 <= i < list.len() ==> element_counts(list).dom().contains((#[trigger] list[i]).0)
                && element_counts(list)[list[i].0] == list[i].1,
        forall|k: ElementKey| #[trigger]
            element_counts(list).dom().contains(k) ==> exists|i: int|
                0 <= i < list.len() && (#[trigger] list[i]).0 == k,
    decreases list.len(),
{
    if list.len() > 0 {
        let rest = list.drop_last();
        assert(keys_differ(rest)) by {
            assert forall|i: int, j: int| 0 <= i < j < rest.len() implies (#[trigger] rest[i]).0 != (
            #[trigger] rest[j]).0 by {
                assert(list[i].0 != list[j].0);
            }
        }
        lemma_counts(rest);
        assert forall|i: int| 0 <= i < list.len() implies element_counts(list).dom().contains(
            (#[trigger] list[i]).0,
        ) && element_counts(list)[list[i].0] == list[i].1 by {
            if i < rest.len() {
                assert(rest[i] == list[i]);
                assert(list[i].0 != list[list.len() - 1].0);
            }
        }
        assert forall|k: ElementKey| #[trigger] element_counts(list).dom().contains(
            k,
        ) implies exists|i: int| 0 <= i < list.len() && (#[trigger] list[i]).0 == k by {
            if k == list.last().0 {
                assert(list[list.len() - 1].0 == k);
            } else {
                assert(element_counts(rest).dom().contains(k));
                let i = choose|i: int| 0 <= i < rest.len() && (#[trigger] rest[i]).0 == k;
                assert(list[i].0 == k);
            }
        }
    }
}

proof fn lemma_counts_update(list: Seq<(ElementKey, usize)>, i: int, n: usize)
    requires
        keys_differ(list),
        0 <= i < list.len(),
    ensures
        keys_differ(list.update(i, (list[i].0, n))),
        element_counts(list.update(i, (list[i].0, n))) == element_counts(list).insert(list[i].0, n),
{
    let new = list.update(i, (list[i].0, n));
    assert forall|a: int, b: int| 0 <= a < b < new.len() implies (#[trigger] new[a]).0 != (
    #[trigger] new[b]).0 by {
        assert(list[a].0 != list[b].0);
    }
    lemma_counts(list);
    lemma_counts(new);
    let want = element_counts(list).insert(list[i].0, n);
    assert forall|k: ElementKey| #[trigger] element_counts(new).dom().contains(k)
        == want.dom().contains(k) by {
        if element_counts(new).dom().contains(k) {
            let j = choose|j: int| 0 <= j < new.len() && (#[trigger] new[j]).0 == k;
            assert(list[j].0 == k);
        }
        if want.dom().contains(k) && k != list[i].0 {
            let j = choose|j: int| 0 <= j < list.len() && (#[trigger] list[j]).0 == k;
            assert(new[j].0 == k);
        }
        if k == list[i].0 {
            assert(new[i].0 == k);
        }
    }
    assert forall|k: ElementKey| #[trigger] element_counts(new).dom().contains(k) implies element_counts(
        new,
    )[k] == want[k] by {
        let j = choose|j: int| 0 <= j < new.len() && (#[trigger] new[j]).0 == k;
        assert(list[j].0 == k);
    }
    assert(element_counts(new) =~= want);
}

proof fn lemma_counts_remove(list: Seq<(ElementKey, usize)>, i: int)
    requires
        keys_differ(list),
        0 <= i < list.len(),
    ensures
        keys_differ(list.remove(i)),
        element_counts(list.remove(i)) == element_counts(list).remove(list[i].0),
{
    let new = list.remove(i);
    assert forall|a: int, b: int| 0 <= a < b < new.len() implies (#[trigger] new[a]).0 != (
    #[trigger] new[b]).0 by {
        let x = if a < i {
            a
        } else {
            a + 1
        };
        let y = if b < i {
            b
        } else {
            b + 1
        };
        assert(list[x].0 != list[y].0);
    }
    lemma_counts(list);
    lemma_counts(new);
    let want = element_counts(list).remove(list[i].0);
    assert forall|k: ElementKey| #[trigger] element_counts(new).dom().contains(k)
        == want.dom().contains(k) by {
        if element_counts(new).dom().contains(k) {
            let j = choose|j: int| 0 <= j < new.len() && (#[trigger] new[j]).0 == k;
            let x = if j < i {
                j
            } else {
                j + 1
            };
            assert(list[x].0 == k);
            if x < i {
                assert(list[x].0 != list[i].0);
            } else {
                assert(list[i].0 != list[x].0);
            }
        }
        if want.dom().contains(k) {
            let j = choose|j: int| 0 <= j < list.len() && (#[trigger] list[j]).0 == k;
            if j < i {
                assert(new[j].0 == k);
            } else {
                assert(new[j - 1].0 == k);
            }
        }
    }
    assert forall|k: ElementKey| #[trigger] element_counts(new).dom().contains(k) implies element_counts(
        new,
    )[k] == want[k] by {
        let j = choose|j: int| 0 <= j < new.len() && (#[trigger] new[j]).0 == k;
        let x = if j < i {
            j
        } else {
            j + 1
        };
        assert(list[x].0 == k);
    }
    assert(element_counts(new) =~= want);
}

impl View for RefCounts {
    type V = CountsView;

    closed spec fn view(&self) -> CountsView {
        CountsView {
            entities: self.entity_counts@,
            elements: element_counts(self.element_state_counts@),
            dropped_entities: self.dropped_entities@.to_set(),
            dropped_elements: self.dropped_element_states@.to_set(),
        }
    }
}

/// The counts with one more handle of an entity. The first handle takes the entity back from what
/// was dropped.
pub open spec fn with_entity(c: CountsView, location: EntityLocation) -> CountsView {
    let id = location.id();
    if c.entities.dom().contains(id) {
        CountsView { entities: c.entities.insert(id, (c.entities[id] + 1) as usize), ..c }
    } else {
        CountsView {
            entities: c.entities.insert(id, 1),
            dropped_entities: c.dropped_entities.remove(location),
            ..c
        }
    }
}

/// The counts with one handle of an entity less. With the last handle the entity is dropped.
pub open spec fn without_entity(c: CountsView, location: EntityLocation) -> CountsView {
    let id = location.id();
    if c.entities[id] == 1 {
        CountsView {
            entities: c.entities.remove(id),
            dropped_entities: c.dropped_entities.insert(location),
            ..c
        }
    } else {
        CountsView { entities: c.entities.insert(id, (c.entities[id] - 1) as usize), ..c }
    }
}

/// The counts with one more handle of an element state.
pub open spec fn with_element(c: CountsView, key: ElementKey) -> CountsView {
    if c.elements.dom().contains(key) {
        CountsView { elements: c.elements.insert(key, (c.elements[key] + 1) as usize), ..c }
    } else {
        CountsView {
            elements: c.elements.insert(key, 1),
            dropped_elements: c.dropped_elements.remove(key),
            ..c
        }
    }
}

/// The counts with one handle of an element state less.
pub open spec fn without_element(c: CountsView, key: ElementKey) -> CountsView {
    if c.elements[key] == 1 {
        CountsView {
            elements: c.elements.remove(key),
            dropped_elements: c.dropped_elements.insert(key),
            ..c
        }
    } else {
        CountsView { elements: c.elements.insert(key, (c.elements[key] - 1) as usize), ..c }
    }
}

/// Whether every count counts something, and nothing that has a handle was dropped.
pub open spec fn counts_ok(c: CountsView) -> bool {
    &&& forall|id: usize| #[trigger] c.entities.dom().contains(id) ==> c.entities[id] > 0
    &&& forall|k: ElementKey| #[trigger] c.elements.dom().contains(k) ==> c.elements[k] > 0
    &&& forall|l: EntityLocation| #[trigger]
        c.dropped_entities.contains(l) ==> !c.entities.dom().contains(l.id())
    &&& forall|k: ElementKey| #[trigger]
        c.dropped_elements.contains(k) ==> !c.elements.dom().contains(k)
}

/// A handle that comes and goes leaves the counts as they were.
pub proof fn passing_handle_changes_nothing(c: CountsView, location: EntityLocation)
    requires
        c.entities.dom().contains(location.id()),
        0 < c.entities[location.id()] < usize::MAX,
    ensures
        without_entity(with_entity(c, location), location) == c,
{
    assert(without_entity(with_entity(c, location), location).entities =~= c.entities);
}

/// An entity is dropped exactly when its last handle goes, and a new handle takes it back.
pub proof fn last_handle_drops(c: CountsView, location: EntityLocation)
    requires
        counts_ok(c),
        c.entities.dom().contains(location.id()),
        !c.dropped_entities.contains(location),
    ensures
        without_entity(c, location).dropped_entities.contains(location) <==> c.entities[location.id()]
            == 1,
        !with_entity(without_entity(c, location), location).dropped_entities.contains(location),
{
}

impl RefCounts {
    /// Whether the lists in which things are kept are in order.
    pub closed spec fn wf(&self) -> bool {
        &&& keys_differ(self.element_state_counts@)
        &&& no_repeats(self.dropped_entities@)
        &&& no_repeats(self.dropped_element_states@)
        &&& counts_ok(self@)
    }

    /// In well-formed counts, every count counts something.
    pub proof fn wf_is_ok(&self)
        requires
            self.wf(),
        ensures
            counts_ok(self@),
    {
    }

    /// No handles, and nothing dropped.
    pub fn new() -> (r: RefCounts)
        ensures
            r.wf(),
            r@ == (CountsView {
                entities: Map::empty(),
                elements: Map::empty(),
                dropped_entities: Set::empty(),
                dropped_elements: Set::empty(),
            }),
    {
        let r = RefCounts {
            entity_counts: HashMap::new(),
            element_state_counts: Vec::new(),
            dropped_entities: Vec::new(),
            dropped_element_states: Vec::new(),
        };
        proof {
            assert(r@.dropped_entities =~= Set::empty());
            assert(r@.dropped_elements =~= Set::empty());
            assert(r@.entities =~= Map::empty());
        }
        r
    }

    /// Counts a handle of a model or of a view.
    pub fn inc_entity(&mut self, location: EntityLocation)
        requires
            old(self).wf(),
            old(self)@.entities.dom().contains(location.id()) ==> old(
                self,
            )@.entities[location.id()] < usize::MAX,
            !old(self)@.entities.dom().contains(location.id()) ==> forall|l: EntityLocation|
                #[trigger] old(self)@.dropped_entities.contains(l) && l.id() == location.id()
                    ==> l == location,
        ensures
            final(self).wf(),
            final(self)@ == with_entity(old(self)@, location),
    {
        let id: usize = location.entity_id();
        let ghost before = self@;
        let count: Option<usize> = match self.entity_counts.get(&id) {
            Some(n) => Some(*n),
            None => None,
        };
        match count {
            Some(n) => {
                self.entity_counts.insert(id, n + 1);
                assert(self@ =~= with_entity(before, location));
            },
            None => {
                self.entity_counts.insert(id, 1);
                remove_location(&mut self.dropped_entities, location);
                assert(self@ =~= with_entity(before, location));
            },
        }
    }

    /// Counts a handle of a model or of a view less.
    pub fn dec_entity(&mut self, location: EntityLocation)
        requires
            old(self).wf(),
            old(self)@.entities.dom().contains(location.id()),
        ensures
            final(self).wf(),
            final(self)@ == without_entity(old(self)@, location),
    {
        let id: usize = location.entity_id();
        let ghost before = self@;
        let count: usize = match self.entity_counts.get(&id) {
            Some(n) => *n,
            None => 0,
        };
        proof {
            assert(before.entities[id] > 0);
            if before.dropped_entities.contains(location) {
                assert(false);
            }
        }
        if count == 1 {
            self.entity_counts.remove(&id);
            let ghost list = self.dropped_entities@;
            self.dropped_entities.push(location);
            proof {
                assert(self.dropped_entities@.to_set() =~= list.to_set().insert(location)) by {
                    lemma_push_to_set(list, location);
                }
                assert(no_repeats(self.dropped_entities@)) by {
                    assert forall|i: int, j: int|
                        0 <= i < j < self.dropped_entities@.len() implies self.dropped_entities@[i]
                        != self.dropped_entities@[j] by {
                        if j == list.len() && list[i] == location {
                            assert(list.to_set().contains(location));
                        }
                    }
                }
            }
            assert(self@ =~= without_entity(before, location));
        } else {
            self.entity_counts.insert(id, count - 1);
            assert(self@ =~= without_entity(before, location));
        }
    }

    fn element_position(&self, key: ElementKey) -> (r: Option<usize>)
        requires
            keys_differ(self.element_state_counts@),
        ensures
            r is Some == self@.elements.dom().contains(key),
            r matches Some(i) ==> i < self.element_state_counts@.len()
                && self.element_state_counts@[i as int].0 == key
                && self.element_state_counts@[i as int].1 == self@.elements[key],
    {
        proof {
            lemma_counts(self.element_state_counts@);
        }
        let mut i: usize = 0;
        while i < self.element_state_counts.len()
            invariant
                i <= self.element_state_counts@.len(),
                forall|k: int|
                    0 <= k < self.element_state_counts@.len()
                        ==> element_counts(self.element_state_counts@).dom().contains(
                        (#[trigger] self.element_state_counts@[k]).0,
                    ) && element_counts(self.element_state_counts@)[self.element_state_counts@[k].0]
                        == self.element_state_counts@[k].1,
                forall|k: int|
                    0 <= k < i ==> (#[trigger] self.element_state_counts@[k]).0 != key,
            decreases self.element_state_counts.len() - i,
        {
            if self.element_state_counts[i].0 == key {
                return Some(i);
            }
            i += 1;
        }
        None
    }

    /// Counts a handle of an element state.
    pub fn inc_element_state(&mut self, key: ElementKey)
        requires
            old(self).wf(),
            old(self)@.elements.dom().contains(key) ==> old(self)@.elements[key] < usize::MAX,
        ensures
            final(self).wf(),
            final(self)@ == with_element(old(self)@, key),
    {
        let ghost before = self@;
        let ghost list = self.element_state_counts@;
        match self.element_position(key) {
            Some(i) => {
                let n: usize = self.element_state_counts[i].1;
                proof {
                    lemma_counts_update(list, i as int, (n + 1) as usize);
                }
                self.element_state_counts.set(i, (key, n + 1));
                assert(self@ =~= with_element(before, key));
            },
            None => {
                self.element_state_counts.push((key, 1));
                proof {
                    let new = self.element_state_counts@;
                    assert(new.drop_last() =~= list);
                    lemma_counts(list);
                    assert forall|a: int, b: int| 0 <= a < b < new.len() implies (#[trigger] new[a]).0
                        != (#[trigger] new[b]).0 by {
                        if b < list.len() {
                            assert(list[a].0 != list[b].0);
                        } else {
                            assert(element_counts(list).dom().contains(list[a].0));
                        }
                    }
                }
                remove_key(&mut self.dropped_element_states, key);
                assert(self@ =~= with_element(before, key));
            },
        }
    }

    /// Counts a handle of an element state less.
    pub fn dec_element_state(&mut self, key: ElementKey)
        requires
            old(self).wf(),
            old(self)@.elements.dom().contains(key),
        ensures
            final(self).wf(),
            final(self)@ == without_element(old(self)@, key),
    {
        let ghost before = self@;
        let ghost list = self.element_state_counts@;
        if let Some(i) = self.element_position(key) {
            let n: usize = self.element_state_counts[i].1;
            assert(before.elements[key] > 0);
            if n == 1 {
                proof {
                    lemma_counts_remove(list, i as int);
                }
                self.element_state_counts.remove(i);
                let ghost dropped = self.dropped_element_states@;
                self.dropped_element_states.push(key);
                proof {
                    lemma_push_to_set(dropped, key);
                    assert forall|a: int, b: int|
                        0 <= a < b < self.dropped_element_states@.len() implies self.dropped_element_states@[a]
                        != self.dropped_element_states@[b] by {
                        if b == dropped.len() && dropped[a] == key {
                            assert(dropped.to_set().contains(key));
                            assert(before.dropped_elements.contains(key));
                        }
                    }
                }
                assert(self@ =~= without_element(before, key));
            } else {
                proof {
                    lemma_counts_update(list, i as int, (n - 1) as usize);
                }
                self.element_state_counts.set(i, (key, n - 1));
                assert(self@ =~= without_element(before, key));
            }
        }
    }

    /// Whether an entity has handles.
    pub fn is_entity_alive(&self, entity_id: usize) -> (r: bool)
        ensures
            r == self@.entities.dom().contains(entity_id),
    {
        self.entity_counts.contains_key(&entity_id)
    }

    /// Hands over what was dropped; nothing counts as dropped afterwards.
    pub fn take_dropped(&mut self) -> (r: (Vec<EntityLocation>, Vec<ElementKey>))
        requires
            old(self).wf(),
        ensures
            final(self).wf(),
            no_repeats(r.0@),
            no_repeats(r.1@),
            r.0@.to_set() == old(self)@.dropped_entities,
            r.1@.to_set() == old(self)@.dropped_elements,
            final(self)@ == (CountsView {
                dropped_entities: Set::empty(),
                dropped_elements: Set::empty(),
                ..old(self)@
            }),
    {
        let mut entities: Vec<EntityLocation> = Vec::new();
        let mut elements: Vec<ElementKey> = Vec::new();
        std::mem::swap(&mut entities, &mut self.dropped_entities);
        std::mem::swap(&mut elements, &mut self.dropped_element_states);
        assert(self@.dropped_entities =~= Set::empty());
        assert(self@.dropped_elements =~= Set::empty());
        (entities, elements)
    }
}

proof fn lemma_push_to_set<T>(list: Seq<T>, x: T)
    ensures
        list.push(x).to_set() == list.to_set().insert(x),
{
    assert forall|y: T| list.push(x).to_set().contains(y) <==> list.to_set().insert(x).contains(y) by {
        if list.push(x).contains(y) {
            let i = choose|i: int| 0 <= i < list.len() + 1 && list.push(x)[i] == y;
            if i < list.len() {
                assert(list[i] == y);
            }
        }
        if list.contains(y) {
            let i = choose|i: int| 0 <= i < list.len() && list[i] == y;
            assert(list.push(x)[i] == y);
        }
        assert(list.push(x)[list.len() as int] == x);
    }
    assert(list.push(x).to_set() =~= list.to_set().insert(x));
}

proof fn lemma_remove_to_set<T>(list: Seq<T>, i: int)
    requires
        no_repeats(list),
        0 <= i < list.len(),
    ensures
        no_repeats(list.remove(i)),
        list.remove(i).to_set() == list.to_set().remove(list[i]),
{
    let new = list.remove(i);
    assert forall|a: int, b: int| 0 <= a < b < new.len() implies new[a] != new[b] by {
        let x = if a < i {
            a
        } else {
            a + 1
        };
        let y = if b < i {
            b
        } else {
            b + 1
        };
        assert(list[x] != list[y]);
    }
    assert forall|y: T| new.to_set().contains(y) <==> list.to_set().remove(list[i]).contains(y) by {
        if new.contains(y) {
            let j = choose|j: int| 0 <= j < new.len() && new[j] == y;
            let x = if j < i {
                j
            } else {
                j + 1
            };
            assert(list[x] == y);
        }
        if list.contains(y) && y != list[i] {
            let j = choose|j: int| 0 <= j < list.len() && list[j] == y;
            if j < i {
                assert(new[j] == y);
            } else {
                assert(new[j - 1] == y);
            }
        }
    }
    assert(new.to_set() =~= list.to_set().remove(list[i]));
}

fn remove_location(list: &mut Vec<EntityLocation>, x: EntityLocation)
    requires
        no_repeats(old(list)@),
    ensures
        no_repeats(final(list)@),
        final(list)@.to_set() == old(list)@.to_set().remove(x),
{
    let mut i: usize = 0;
    while i < list.len()
        invariant
            i <= list@.len(),
            list@ == old(list)@,
            no_repeats(list@),
            forall|k: int| 0 <= k < i ==> list@[k] != x,
        decreases list.len() - i,
    {
        if list[i] == x {
            proof {
                lemma_remove_to_set(list@, i as int);
            }
            list.remove(i);
            return;
        }
        i += 1;
    }
    assert(list@.to_set() =~= list@.to_set().remove(x));
}

fn remove_key(list: &mut Vec<ElementKey>, x: ElementKey)
    requires
        no_repeats(old(list)@),
    ensures
        no_repeats(final(list)@),
        final(list)@.to_set() == old(list)@.to_set().remove(x),
{
    let mut i: usize = 0;
    while i < list.len()
        invariant
            i <= list@.len(),
            list@ == old(list)@,
            no_repeats(list@),
            forall|k: int| 0 <= k < i ==> list@[k] != x,
        decreases list.len() - i,
    {
        if list[i] == x {
            proof {
                lemma_remove_to_set(list@, i as int);
            }
            list.remove(i);
            return;
        }
        i += 1;
    }
    assert(list@.to_set() =~= list@.to_set().remove(x));
}

impl Default for RefCounts {
    fn default() -> (r: Self)
        ensures
            r.wf(),
            r@.entities == Map::<usize, usize>::empty(),
            r@.elements == Map::<ElementKey, usize>::empty(),
            r@.dropped_entities == Set::<EntityLocation>::empty(),
            r@.dropped_elements == Set::<ElementKey>::empty(),
    {
        RefCounts::new()
    }
}

/// A handle counts one more for its entity and nothing for others; the first one takes the entity
/// back from those that were dropped.
pub proof fn handles_are_counted(c: CountsView, location: EntityLocation, other: usize)
    requires
        c.entities.dom().contains(location.id()) ==> c.entities[location.id()] < usize::MAX,
    ensures
        ({
            let after = with_entity(c, location);
            let id = location.id();
            &&& after.entities.dom().contains(id)
            &&& c.entities.dom().contains(id) ==> after.entities[id] == c.entities[id] + 1
                && after.dropped_entities == c.dropped_entities
            &&& !c.entities.dom().contains(id) ==> after.entities[id] == 1
                && !after.dropped_entities.contains(location)
            &&& other != id ==> (after.entities.dom().contains(other) <==> c.entities.dom().contains(
                other,
            ))
            &&& other != id && c.entities.dom().contains(other) ==> after.entities[other]
                == c.entities[other]
            &&& after.elements == c.elements
            &&& after.dropped_elements == c.dropped_elements
        }),
{
}

/// Letting a handle go counts one less; the last one drops the entity and no other.
pub proof fn handles_are_let_go(
    c: CountsView,
    location: EntityLocation,
    other: usize,
    somewhere: EntityLocation,
)
    requires
        c.entities.dom().contains(location.id()),
        c.entities[location.id()] > 0,
    ensures
        ({
            let after = without_entity(c, location);
            let id = location.id();
            &&& c.entities[id] > 1 ==> after.entities.dom().contains(id) && after.entities[id]
                == c.entities[id] - 1 && after.dropped_entities == c.dropped_entities
            &&& c.entities[id] == 1 ==> !after.entities.dom().contains(id)
                && after.dropped_entities.contains(location)
            &&& somewhere != location ==> (after.dropped_entities.contains(somewhere)
                <==> c.dropped_entities.contains(somewhere))
            &&& other != id && c.entities.dom().contains(other) ==> after.entities.dom().contains(
                other,
            ) && after.entities[other] == c.entities[other]
            &&& after.elements == c.elements
            &&& after.dropped_elements == c.dropped_elements
        }),
{
}

/// The states of elements are counted in the same way, and apart from entities.
pub proof fn element_states_are_counted(c: CountsView, key: ElementKey, other: ElementKey)
    requires
        c.elements.dom().contains(key) ==> 0 < c.elements[key] < usize::MAX,
    ensures
        ({
            let more = with_element(c, key);
            let less = without_element(c, key);
            &&& more.elements.dom().contains(key)
            &&& c.elements.dom().contains(key) ==> more.elements[key] == c.elements[key] + 1
            &&& !c.elements.dom().contains(key) ==> more.elements[key] == 1
                && !more.dropped_elements.contains(key)
            &&& c.elements.dom().contains(key) && c.elements[key] > 1 ==> less.elements.dom().contains(
                key,
            ) && less.elements[key] == c.elements[key] - 1 && less.dropped_elements
                == c.dropped_elements
            &&& c.elements.dom().contains(key) && c.elements[key] == 1 ==> !less.elements.dom().contains(
                key,
            ) && less.dropped_elements.contains(key)
            &&& other != key && c.elements.dom().contains(other) ==> more.elements.dom().contains(
                other,
            ) && more.elements[other] == c.elements[other] && less.elements.dom().contains(other)
                && less.elements[other] == c.elements[other]
            &&& more.entities == c.entities && less.entities == c.entities
            &&& more.dropped_entities == c.dropped_entities && less.dropped_entities
                == c.dropped_entities
        }),
{
}

/// An entity is known by its own number, whatever window it is in.
pub proof fn entities_have_their_numbers(id: usize, window_id: usize)
    ensures
        EntityLocation::Model(id).id() == id,
        EntityLocation::View(window_id, id).id() == id,
{
}

} // verus!
