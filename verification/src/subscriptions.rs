//! Who is told of the events and changes of an entity.
use vstd::prelude::*;

verus! {

/// Which list a subscription is in.
#[derive(Clone, Copy, Debug, PartialEq, Eq, Structural)]
pub enum SubscriptionKind {
    Subscription,
    Observation,
}

/// A subscription that has been made. One that is detached stays when it is dropped.
#[derive(Debug)]
pub struct Subscription {
    pub kind: SubscriptionKind,
    pub id: usize,
    pub entity_id: usize,
    pub detached: bool,
}

impl Subscription {
    /// Keeps the subscription for as long as its entity lives.
    pub fn detach(&mut self)
        ensures
            *final(self) == (Subscription { detached: true, ..*old(self) }),
    {
        self.detached = true;
    }
}

/// Whether an entity with a callback comes before another.
pub open spec fn pair_less(a: (usize, usize), b: (usize, usize)) -> bool {
    a.0 < b.0 || (a.0 == b.0 && a.1 < b.1)
}

/// Whether pairs are in ascending order.
pub open spec fn pairs_ascend(pairs: Seq<(usize, usize)>) -> bool {
    forall|i: int, j: int|
        0 <= i < j < pairs.len() ==> pair_less(#[trigger] pairs[i], #[trigger] pairs[j])
}

/// Callbacks by entity, in the order in which they were added.
struct CallbackTable {
    pairs: Vec<(usize, usize)>,
}

impl CallbackTable {
    #[verifier::type_invariant]
    spec fn inv(self) -> bool {
        pairs_ascend(self.pairs@)
    }

    spec fn view(&self) -> Set<(usize, usize)> {
        self.pairs@.to_set()
    }

    fn new() -> (r: CallbackTable)
        ensures
            r@ == Set::<(usize, usize)>::empty(),
    {
        let r = CallbackTable { pairs: Vec::new() };
        assert(r@ =~= Set::empty());
        r
    }

    fn insert(&mut self, entity_id: usize, id: usize)
        ensures
            final(self)@ == old(self)@.insert((entity_id, id)),
    {
        proof {
            use_type_invariant(&*self);
        }
        let pair: (usize, usize) = (entity_id, id);
        let mut pairs: Vec<(usize, usize)> = Vec::new();
        std::mem::swap(&mut pairs, &mut self.pairs);
        let ghost before = pairs@;
        let mut i: usize = 0;
        while i < pairs.len() && (pairs[i].0 < pair.0 || (pairs[i].0 == pair.0 && pairs[i].1
            < pair.1))
            invariant
                pairs@ == before,
                pairs_ascend(before),
                i <= before.len(),
                forall|k: int| 0 <= k < i ==> pair_less(#[trigger] before[k], pair),
            decreases before.len() - i,
        {
            i += 1;
        }
        if i < pairs.len() && pairs[i].0 == pair.0 && pairs[i].1 == pair.1 {
            assert(before[i as int] == pair);
            assert(before.to_set().insert(pair) =~= before.to_set());
        } else {
            pairs.insert(i, pair);
            proof {
                lemma_inserted(before, i as int, pair);
            }
        }
        self.pairs = pairs;
    }

    fn remove(&mut self, entity_id: usize, id: usize)
        ensures
            final(self)@ == old(self)@.remove((entity_id, id)),
    {
        proof {
            use_type_invariant(&*self);
        }
        let mut pairs: Vec<(usize, usize)> = Vec::new();
        std::mem::swap(&mut pairs, &mut self.pairs);
        let ghost before = pairs@;
        let mut i: usize = 0;
        while i < pairs.len() && !(pairs[i].0 == entity_id && pairs[i].1 == id)
            invariant
                pairs@ == before,
                i <= before.len(),
                forall|k: int| 0 <= k < i ==> #[trigger] before[k] != (entity_id, id),
            decreases before.len() - i,
        {
            i += 1;
        }
        if i < pairs.len() {
            assert(before[i as int] == (entity_id, id));
            pairs.remove(i);
            proof {
                lemma_removed(before, i as int);
            }
        } else {
            assert(before.to_set().remove((entity_id, id)) =~= before.to_set());
        }
        self.pairs = pairs;
    }

    fn take(&mut self, entity_id: usize) -> (r: Vec<usize>)
        ensures
            ids_of(old(self)@, entity_id) == r@.to_set(),
            forall|i: int, j: int| 0 <= i < j < r@.len() ==> r@[i] < r@[j],
            final(self)@ == without_entity(old(self)@, entity_id),
    {
        proof {
            use_type_invariant(&*self);
        }
        let mut pairs: Vec<(usize, usize)> = Vec::new();
        std::mem::swap(&mut pairs, &mut self.pairs);
        let ghost before = pairs@;
        let mut kept: Vec<(usize, usize)> = Vec::new();
        let mut taken: Vec<usize> = Vec::new();
        let mut i: usize = 0;
        while i < pairs.len()
            invariant
                pairs@ == before,
                pairs_ascend(before),
                i <= before.len(),
                pairs_ascend(kept@),
                forall|k: int| 0 <= k < kept@.len() ==> #[trigger] kept@[k].0 != entity_id,
                forall|k: int|
                    0 <= k < kept@.len() ==> before.take(i as int).contains(#[trigger] kept@[k]),
                forall|k: int|
                    0 <= k < taken@.len() ==> before.take(i as int).contains(
                        (entity_id, #[trigger] taken@[k]),
                    ),
                forall|a: int, b: int| 0 <= a < b < taken@.len() ==> taken@[a] < taken@[b],
                forall|k: int|
                    0 <= k < i ==> if (#[trigger] before[k]).0 == entity_id {
                        taken@.contains(before[k].1)
                    } else {
                        kept@.contains(before[k])
                    },
            decreases before.len() - i,
        {
            let pair: (usize, usize) = pairs[i];
            let ghost old_kept = kept@;
            let ghost old_taken = taken@;
            proof {
                assert forall|x: (usize, usize)| before.take(i as int).contains(
                    x,
                ) implies #[trigger] before.take(i + 1).contains(x) by {
                    let k = choose|k: int| 0 <= k < i && before.take(i as int)[k] == x;
                    assert(before.take(i + 1)[k] == x);
                }
                assert(before.take(i + 1)[i as int] == pair);
            }
            if pair.0 == entity_id {
                taken.push(pair.1);
                proof {
                    assert forall|a: int, b: int| 0 <= a < b < taken@.len() implies taken@[a]
                        < taken@[b] by {
                        if b == old_taken.len() {
                            assert(before.take(i as int).contains((entity_id, old_taken[a])));
                            let k = choose|k: int|
                                0 <= k < i && before.take(i as int)[k] == (entity_id, old_taken[a]);
                            assert(pair_less(before[k], before[i as int]));
                        }
                    }
                    assert(taken@[old_taken.len() as int] == pair.1);
                    assert forall|x: usize| old_taken.contains(x) implies #[trigger] taken@.contains(x) by {
                        let k = choose|k: int| 0 <= k < old_taken.len() && old_taken[k] == x;
                        assert(taken@[k] == x);
                    }
                }
            } else {
                kept.push(pair);
                proof {
                    assert forall|a: int, b: int| 0 <= a < b < kept@.len() implies pair_less(
                        #[trigger] kept@[a],
                        #[trigger] kept@[b],
                    ) by {
                        if b == old_kept.len() {
                            assert(before.take(i as int).contains(old_kept[a]));
                            let k = choose|k: int|
                                0 <= k < i && before.take(i as int)[k] == old_kept[a];
                            assert(pair_less(before[k], before[i as int]));
                        } else {
                            assert(pair_less(old_kept[a], old_kept[b]));
                        }
                    }
                    assert(kept@[old_kept.len() as int] == pair);
                    assert forall|x: (usize, usize)| old_kept.contains(x) implies #[trigger] kept@.contains(x) by {
                        let k = choose|k: int| 0 <= k < old_kept.len() && old_kept[k] == x;
                        assert(kept@[k] == x);
                    }
                }
            }
            i += 1;
        }
        proof {
            assert(before.take(i as int) =~= before);
            let all = before.to_set();
            assert forall|x: usize| #[trigger] taken@.to_set().contains(x) <==> ids_of(
                all,
                entity_id,
            ).contains(x) by {
                if taken@.contains(x) {
                    let k = choose|k: int| 0 <= k < taken@.len() && taken@[k] == x;
                    assert(before.contains((entity_id, taken@[k])));
                }
                if all.contains((entity_id, x)) {
                    let k = choose|k: int| 0 <= k < before.len() && before[k] == (entity_id, x);
                    assert(taken@.contains(before[k].1));
                }
            }
            assert(taken@.to_set() =~= ids_of(all, entity_id));
            assert forall|x: (usize, usize)| #[trigger] kept@.to_set().contains(x) <==> without_entity(
                all,
                entity_id,
            ).contains(x) by {
                if kept@.contains(x) {
                    let k = choose|k: int| 0 <= k < kept@.len() && kept@[k] == x;
                    assert(before.contains(kept@[k]));
                }
                if all.contains(x) && x.0 != entity_id {
                    let k = choose|k: int| 0 <= k < before.len() && before[k] == x;
                    assert(kept@.contains(before[k]));
                }
            }
            assert(kept@.to_set() =~= without_entity(all, entity_id));
        }
        self.pairs = kept;
        taken
    }
}

/// The callbacks of an entity.
pub open spec fn ids_of(pairs: Set<(usize, usize)>, entity_id: usize) -> Set<usize> {
    Set::new(|id: usize| pairs.contains((entity_id, id)))
}

/// The callbacks of all other entities.
pub open spec fn without_entity(pairs: Set<(usize, usize)>, entity_id: usize) -> Set<
    (usize, usize),
> {
    pairs.filter(|p: (usize, usize)| p.0 != entity_id)
}

proof fn lemma_inserted(pairs: Seq<(usize, usize)>, i: int, pair: (usize, usize))
    requires
        pairs_ascend(pairs),
        0 <= i <= pairs.len(),
        forall|k: int| 0 <= k < i ==> pair_less(#[trigger] pairs[k], pair),
        i < pairs.len() ==> pairs[i] != pair && !pair_less(pairs[i], pair),
    ensures
        pairs_ascend(pairs.insert(i, pair)),
        pairs.insert(i, pair).to_set() == pairs.to_set().insert(pair),
{
    let new = pairs.insert(i, pair);
    assert forall|a: int, b: int| 0 <= a < b < new.len() implies pair_less(
        #[trigger] new[a],
        #[trigger] new[b],
    ) by {
        if a != i && b != i {
            let x = if a < i {
                a
            } else {
                a - 1
            };
            let y = if b < i {
                b
            } else {
                b - 1
            };
            assert(pair_less(pairs[x], pairs[y]));
        } else if b == i {
            assert(pair_less(pairs[a], pair));
        } else {
            assert(pair_less(pair, pairs[i]));
            if b > i + 1 {
                assert(pair_less(pairs[i], pairs[b - 1]));
            }
        }
    }
    assert forall|x: (usize, usize)| new.to_set().contains(x) <==> pairs.to_set().insert(
        pair,
    ).contains(x) by {
        if new.contains(x) {
            let k = choose|k: int| 0 <= k < new.len() && new[k] == x;
            if k < i {
                assert(pairs[k] == x);
            } else if k > i {
                assert(pairs[k - 1] == x);
            }
        }
        if pairs.contains(x) {
            let k = choose|k: int| 0 <= k < pairs.len() && pairs[k] == x;
            if k < i {
                assert(new[k] == x);
            } else {
                assert(new[k + 1] == x);
            }
        }
        assert(new[i] == pair);
    }
    assert(new.to_set() =~= pairs.to_set().insert(pair));
}

proof fn lemma_removed(pairs: Seq<(usize, usize)>, i: int)
    requires
        pairs_ascend(pairs),
        0 <= i < pairs.len(),
    ensures
        pairs_ascend(pairs.remove(i)),
        pairs.remove(i).to_set() == pairs.to_set().remove(pairs[i]),
{
    let new = pairs.remove(i);
    assert forall|a: int, b: int| 0 <= a < b < new.len() implies pair_less(
        #[trigger] new[a],
        #[trigger] new[b],
    ) by {
        let x = if a < i {
            a
        } else {
            a + 1
        };
        let y = if b < i {
            b
        } else {
            b + 1
        };
        assert(pair_less(pairs[x], pairs[y]));
    }
    assert forall|x: (usize, usize)| new.to_set().contains(x) <==> pairs.to_set().remove(
        pairs[i],
    ).contains(x) by {
        if new.contains(x) {
            let k = choose|k: int| 0 <= k < new.len() && new[k] == x;
            if k < i {
                assert(pair_less(pairs[k], pairs[i]));
            } else {
                assert(pair_less(pairs[i], pairs[k + 1]));
            }
        }
        if pairs.contains(x) && x != pairs[i] {
            let k = choose|k: int| 0 <= k < pairs.len() && pairs[k] == x;
            if k < i {
                assert(new[k] == x);
            } else {
                assert(new[k - 1] == x);
            }
        }
    }
    assert(new.to_set() =~= pairs.to_set().remove(pairs[i]));
}

/// All subscriptions to events and all observations of changes.
pub struct Subscriptions {
    next_id: usize,
    subscriptions: CallbackTable,
    observations: CallbackTable,
}

/// The meaning of the subscriptions: entities with the numbers of their callbacks.
#[verifier::ext_equal]
pub struct SubscriptionsView {
    pub next_id: usize,
    pub subscriptions: Set<(usize, usize)>,
    pub observations: Set<(usize, usize)>,
}

impl SubscriptionsView {
    /// The callbacks of one kind.
    pub open spec fn table(self, kind: SubscriptionKind) -> Set<(usize, usize)> {
        match kind {
            SubscriptionKind::Subscription => self.subscriptions,
            SubscriptionKind::Observation => self.observations,
        }
    }

    /// The subscriptions with other callbacks of one kind.
    pub open spec fn with_table(
        self,
        kind: SubscriptionKind,
        table: Set<(usize, usize)>,
    ) -> SubscriptionsView {
        match kind {
            SubscriptionKind::Subscription => SubscriptionsView { subscriptions: table, ..self },
            SubscriptionKind::Observation => SubscriptionsView { observations: table, ..self },
        }
    }
}

impl View for Subscriptions {
    type V = SubscriptionsView;

    closed spec fn view(&self) -> SubscriptionsView {
        SubscriptionsView {
            next_id: self.next_id,
            subscriptions: self.subscriptions@,
            observations: self.observations@,
        }
    }
}

impl Subscriptions {
    /// Nobody is told of anything.
    pub fn new() -> (r: Subscriptions)
        ensures
            r@ == (SubscriptionsView {
                next_id: 0,
                subscriptions: Set::empty(),
                observations: Set::empty(),
            }),
    {
        Subscriptions {
            next_id: 0,
            subscriptions: CallbackTable::new(),
            observations: CallbackTable::new(),
        }
    }

    /// Has somebody told of the events or the changes of an entity.
    pub fn subscribe(&mut self, kind: SubscriptionKind, entity_id: usize) -> (r: Subscription)
        requires
            old(self)@.next_id < usize::MAX,
        ensures
            r == (Subscription { kind, id: old(self)@.next_id, entity_id, detached: false }),
            final(self)@ == (SubscriptionsView {
                next_id: (old(self)@.next_id + 1) as usize,
                ..old(self)@.with_table(
                    kind,
                    old(self)@.table(kind).insert((entity_id, old(self)@.next_id)),
                )
            }),
    {
        let id: usize = self.next_id;
        self.next_id = id + 1;
        match kind {
            SubscriptionKind::Subscription => self.subscriptions.insert(entity_id, id),
            SubscriptionKind::Observation => self.observations.insert(entity_id, id),
        }
        Subscription { kind, id, entity_id, detached: false }
    }

    /// Drops a subscription: unless it was detached, nobody is told any more.
    pub fn drop_subscription(&mut self, subscription: &Subscription)
        ensures
            final(self)@ == (if subscription.detached {
                old(self)@
            } else {
                old(self)@.with_table(
                    subscription.kind,
                    old(self)@.table(subscription.kind).remove(
                        (subscription.entity_id, subscription.id),
                    ),
                )
            }),
    {
        if !subscription.detached {
            match subscription.kind {
                SubscriptionKind::Subscription => self.subscriptions.remove(
                    subscription.entity_id,
                    subscription.id,
                ),
                SubscriptionKind::Observation => self.observations.remove(
                    subscription.entity_id,
                    subscription.id,
                ),
            }
        }
    }

    /// Takes out the callbacks that are to be called for an entity, the one that was added first at
    /// the front. Each is put back when it wants to be called again.
    pub fn begin_calls(&mut self, kind: SubscriptionKind, entity_id: usize) -> (r: Vec<usize>)
        ensures
            r@.to_set() == ids_of(old(self)@.table(kind), entity_id),
            forall|i: int, j: int| 0 <= i < j < r@.len() ==> r@[i] < r@[j],
            final(self)@ == old(self)@.with_table(
                kind,
                without_entity(old(self)@.table(kind), entity_id),
            ),
    {
        match kind {
            SubscriptionKind::Subscription => self.subscriptions.take(entity_id),
            SubscriptionKind::Observation => self.observations.take(entity_id),
        }
    }

    /// Puts a callback back that wants to be called again.
    pub fn keep(&mut self, kind: SubscriptionKind, entity_id: usize, id: usize)
        ensures
            final(self)@ == old(self)@.with_table(
                kind,
                old(self)@.table(kind).insert((entity_id, id)),
            ),
    {
        match kind {
            SubscriptionKind::Subscription => self.subscriptions.insert(entity_id, id),
            SubscriptionKind::Observation => self.observations.insert(entity_id, id),
        }
    }

    /// Forgets everybody who is told of an entity.
    pub fn remove_entity(&mut self, entity_id: usize)
        ensures
            final(self)@ == (SubscriptionsView {
                subscriptions: without_entity(old(self)@.subscriptions, entity_id),
                observations: without_entity(old(self)@.observations, entity_id),
                ..old(self)@
            }),
    {
        let subscribed: Vec<usize> = self.subscriptions.take(entity_id);
        let observed: Vec<usize> = self.observations.take(entity_id);
    }
}

impl Default for Subscriptions {
    fn default() -> (r: Self)
        ensures
            r@ == (SubscriptionsView {
                next_id: 0,
                subscriptions: Set::empty(),
                observations: Set::empty(),
            }),
    {
        Subscriptions::new()
    }
}

/// Callbacks that all want to be called again leave the table as it was.
pub proof fn keeping_all_changes_nothing(
    pairs: Set<(usize, usize)>,
    entity_id: usize,
)
    ensures
        pairs =~= without_entity(pairs, entity_id).union(
            Set::new(|p: (usize, usize)| p.0 == entity_id && ids_of(pairs, entity_id).contains(p.1)),
        ),
{
}

/// Dropping a subscription undoes it.
pub proof fn dropping_undoes_subscribing(pairs: Set<(usize, usize)>, entity_id: usize, id: usize)
    requires
        !pairs.contains((entity_id, id)),
    ensures
        pairs.insert((entity_id, id)).remove((entity_id, id)) =~= pairs,
{
}

/// Pairs go by their entities, and of one entity by their numbers.
pub proof fn entities_come_before_numbers(a: (usize, usize), b: (usize, usize))
    ensures
        a.0 < b.0 ==> pair_less(a, b) && !pair_less(b, a),
        a.0 == b.0 ==> (pair_less(a, b) <==> a.1 < b.1),
        a != b ==> pair_less(a, b) || pair_less(b, a),
{
}

/// The subscriptions of an entity are those that name it; without it, all others are left.
pub proof fn subscriptions_belong_to_entities(
    pairs: Set<(usize, usize)>,
    entity_id: usize,
    other: usize,
    id: usize,
)
    ensures
        ids_of(pairs, entity_id).contains(id) <==> pairs.contains((entity_id, id)),
        !without_entity(pairs, entity_id).contains((entity_id, id)),
        other != entity_id ==> (without_entity(pairs, entity_id).contains((other, id))
            <==> pairs.contains((other, id))),
{
}

/// Subscriptions and observations are kept apart.
pub proof fn tables_are_kept_apart(s: SubscriptionsView, kind: SubscriptionKind, table: Set<(usize, usize)>)
    ensures
        s.table(SubscriptionKind::Subscription) == s.subscriptions,
        s.table(SubscriptionKind::Observation) == s.observations,
        s.with_table(kind, table).table(kind) == table,
        kind is Subscription ==> s.with_table(kind, table).observations == s.observations,
        kind is Observation ==> s.with_table(kind, table).subscriptions == s.subscriptions,
        s.with_table(kind, table).next_id == s.next_id,
{
}

} // verus!
