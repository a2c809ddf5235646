//! Where an element stands among those painted above and below it.
use vstd::prelude::*;

verus! {

/// The levels at which an element is stacked, the outermost first, kept in a `SmallVec`.
#[verifier::external_body]
pub struct StackingOrder {
    inner: smallvec::SmallVec<[u32; 16]>,
}

/// The levels of a stacking order.
pub uninterp spec fn levels(order: StackingOrder) -> Seq<u32>;

impl View for StackingOrder {
    type V = Seq<u32>;

    open spec fn view(&self) -> Seq<u32> {
        levels(*self)
    }
}

/// `SmallVec::new`: no levels.
#[verifier::external_body]
fn no_levels() -> (r: StackingOrder)
    ensures
        levels(r) == Seq::<u32>::empty(),
{
    StackingOrder { inner: smallvec::SmallVec::new() }
}

/// `SmallVec::push` puts a level behind the others.
#[verifier::external_body]
fn push_level(order: &mut StackingOrder, level: u32)
    ensures
        levels(*final(order)) == levels(*old(order)).push(level),
{
    order.inner.push(level)
}

/// `SmallVec::pop` takes the last level out, if there is one.
#[verifier::external_body]
fn pop_level(order: &mut StackingOrder) -> (r: Option<u32>)
    ensures
        levels(*old(order)).len() == 0 ==> r is None && levels(*final(order)) == levels(
            *old(order),
        ),
        levels(*old(order)).len() > 0 ==> r == Some(levels(*old(order)).last()) && levels(
            *final(order),
        ) == levels(*old(order)).drop_last(),
{
    order.inner.pop()
}

/// `SmallVec::as_slice` shows all levels in order.
#[verifier::external_body]
fn all_levels(order: &StackingOrder) -> (r: &[u32])
    ensures
        r@ == levels(*order),
{
    order.inner.as_slice()
}

/// `SmallVec::clone` holds the same levels.
#[verifier::external_body]
fn same_levels(order: &StackingOrder) -> (r: StackingOrder)
    ensures
        levels(r) == levels(*order),
{
    StackingOrder { inner: order.inner.clone() }
}

/// Whether levels are below others: at the first place where they differ, or because they end
/// before.
pub open spec fn levels_below(a: Seq<u32>, b: Seq<u32>) -> bool
    decreases a.len(),
{
    if b.len() == 0 {
        false
    } else if a.len() == 0 {
        true
    } else {
        a[0] < b[0] || (a[0] == b[0] && levels_below(a.skip(1), b.skip(1)))
    }
}

/// Nothing is below itself.
pub proof fn not_below_itself(a: Seq<u32>)
    ensures
        !levels_below(a, a),
    decreases a.len(),
{
    if a.len() > 0 {
        not_below_itself(a.skip(1));
    }
}

/// What is below something is below all that this is below.
pub proof fn below_is_transitive(a: Seq<u32>, b: Seq<u32>, c: Seq<u32>)
    requires
        levels_below(a, b),
        levels_below(b, c),
    ensures
        levels_below(a, c),
    decreases a.len(),
{
    if a.len() > 0 {
        if a[0] == b[0] && b[0] == c[0] {
            below_is_transitive(a.skip(1), b.skip(1), c.skip(1));
        }
    }
}

/// Of two different orders, one is below the other.
pub proof fn one_is_below(a: Seq<u32>, b: Seq<u32>)
    requires
        a != b,
    ensures
        levels_below(a, b) || levels_below(b, a),
    decreases a.len(),
{
    if a.len() == 0 && b.len() == 0 {
        assert(a =~= b);
    } else if a.len() > 0 && b.len() > 0 && a[0] == b[0] {
        if a.skip(1) == b.skip(1) {
            assert(a =~= seq![a[0]] + a.skip(1));
            assert(b =~= seq![b[0]] + b.skip(1));
        }
        one_is_below(a.skip(1), b.skip(1));
    }
}

impl StackingOrder {
    /// The order of an element that is not stacked.
    pub fn new() -> (r: StackingOrder)
        ensures
            r@ == Seq::<u32>::empty(),
    {
        no_levels()
    }

    /// Goes one level further in.
    pub fn push(&mut self, level: u32)
        ensures
            final(self)@ == old(self)@.push(level),
    {
        push_level(self, level)
    }

    /// Comes one level out.
    pub fn pop(&mut self) -> (r: Option<u32>)
        ensures
            old(self)@.len() == 0 ==> r is None && final(self)@ == old(self)@,
            old(self)@.len() > 0 ==> r == Some(old(self)@.last()) && final(self)@ == old(
                self,
            )@.drop_last(),
    {
        pop_level(self)
    }

    /// Whether an order is below another.
    pub fn below(&self, other: &StackingOrder) -> (r: bool)
        ensures
            r == levels_below(self@, other@),
    {
        let a: &[u32] = all_levels(self);
        let b: &[u32] = all_levels(other);
        let mut i: usize = 0;
        assert(a@.skip(0) =~= a@);
        assert(b@.skip(0) =~= b@);
        while i < a.len() && i < b.len()
            invariant
                a@ == self@,
                b@ == other@,
                i <= a@.len(),
                i <= b@.len(),
                levels_below(self@, other@) == levels_below(a@.skip(i as int), b@.skip(i as int)),
            decreases a@.len() - i,
        {
            assert(a@.skip(i as int).skip(1) =~= a@.skip(i + 1));
            assert(b@.skip(i as int).skip(1) =~= b@.skip(i + 1));
            if a[i] < b[i] {
                return true;
            }
            if a[i] > b[i] {
                return false;
            }
            i += 1;
        }
        i < b.len()
    }
}

impl Clone for StackingOrder {
    fn clone(&self) -> (r: Self)
        ensures
            r@ == self@,
    {
        same_levels(self)
    }
}

impl Default for StackingOrder {
    fn default() -> (r: Self)
        ensures
            r@ == Seq::<u32>::empty(),
    {
        StackingOrder::new()
    }
}

/// Whether an element gets its turn before another: it is below it, or it was added first.
pub open spec fn comes_before(orders: Seq<StackingOrder>, i: usize, j: usize) -> bool {
    levels_below(orders[i as int]@, orders[j as int]@) || (orders[i as int]@ == orders[j as int]@
        && i < j)
}

/// Whether places stand in the order of their turns.
pub open spec fn in_turn(orders: Seq<StackingOrder>, places: Seq<usize>) -> bool {
    forall|a: int, b: int|
        0 <= a < b < places.len() ==> comes_before(
            orders,
            #[trigger] places[a],
            #[trigger] places[b],
        )
}

proof fn lemma_before_transitive(orders: Seq<StackingOrder>, i: usize, j: usize, k: usize)
    requires
        comes_before(orders, i, j),
        comes_before(orders, j, k),
    ensures
        comes_before(orders, i, k),
{
    let a = orders[i as int]@;
    let b = orders[j as int]@;
    let c = orders[k as int]@;
    if levels_below(a, b) && levels_below(b, c) {
        below_is_transitive(a, b, c);
    }
}

/// The places of all elements, from back to front. Elements at the same levels keep their order.
pub fn back_to_front(orders: &Vec<StackingOrder>) -> (r: Vec<usize>)
    ensures
        in_turn(orders@, r@),
        forall|k: usize| #[trigger] r@.contains(k) <==> k < orders@.len(),
        r@.len() == orders@.len(),
{
    let mut r: Vec<usize> = Vec::new();
    let mut i: usize = 0;
    while i < orders.len()
        invariant
            i <= orders.len(),
            r@.len() == i,
            in_turn(orders@, r@),
            forall|k: usize| #[trigger] r@.contains(k) <==> k < i,
        decreases orders.len() - i,
    {
        let ghost before = r@;
        let mut p: usize = r.len();
        assert forall|m: int| 0 <= m < before.len() implies #[trigger] before[m] < i by {
            assert(before.contains(before[m]));
        }
        while p > 0 && orders[i].below(&orders[r[p - 1]])
            invariant
                p <= r.len(),
                i < orders.len(),
                r@ == before,
                forall|m: int| 0 <= m < before.len() ==> #[trigger] before[m] < i,
                forall|m: int|
                    p <= m < before.len() ==> levels_below(
                        orders@[i as int]@,
                        orders@[#[trigger] before[m] as int]@,
                    ),
            decreases p,
        {
            p -= 1;
        }
        r.insert(p, i);
        proof {
            lemma_put(orders@, before, i, p as int);
        }
        i += 1;
    }
    r
}

proof fn lemma_put(orders: Seq<StackingOrder>, places: Seq<usize>, i: usize, p: int)
    requires
        in_turn(orders, places),
        0 <= p <= places.len(),
        forall|m: int| 0 <= m < places.len() ==> #[trigger] places[m] < i,
        forall|m: int|
            p <= m < places.len() ==> levels_below(
                orders[i as int]@,
                orders[#[trigger] places[m] as int]@,
            ),
        p > 0 ==> !levels_below(orders[i as int]@, orders[places[p - 1] as int]@),
        forall|k: usize| #[trigger] places.contains(k) <==> k < i,
    ensures
        in_turn(orders, places.insert(p, i)),
        forall|k: usize| #[trigger] places.insert(p, i).contains(k) <==> k <= i,
{
    let new = places.insert(p, i);
    if p > 0 {
        let last = places[p - 1];
        if orders[last as int]@ != orders[i as int]@ {
            one_is_below(orders[last as int]@, orders[i as int]@);
        }
        assert(comes_before(orders, last, i));
    }
    assert forall|a: int, b: int| 0 <= a < b < new.len() implies comes_before(
        orders,
        #[trigger] new[a],
        #[trigger] new[b],
    ) by {
        if b == p {
            assert(new[a] == places[a]);
            if a < p - 1 {
                assert(comes_before(orders, places[a], places[p - 1]));
                lemma_before_transitive(orders, places[a], places[p - 1], i);
            }
        } else if a == p {
            assert(new[b] == places[b - 1]);
        } else {
            let x = if a < p {
                a
            } else {
                a - 1
            };
            let y = if b < p {
                b
            } else {
                b - 1
            };
            assert(new[a] == places[x]);
            assert(new[b] == places[y]);
            assert(comes_before(orders, places[x], places[y]));
        }
    }
    assert forall|k: usize| #[trigger] new.contains(k) <==> k <= i by {
        if new.contains(k) {
            let m = choose|m: int| 0 <= m < new.len() && new[m] == k;
            if m < p {
                assert(places[m] == k);
            } else if m > p {
                assert(places[m - 1] == k);
            }
        }
        if k < i {
            assert(places.contains(k));
            let m = choose|m: int| 0 <= m < places.len() && places[m] == k;
            if m < p {
                assert(new[m] == k);
            } else {
                assert(new[m + 1] == k);
            }
        }
        assert(new[p] == i);
    }
}

/// The first level at which two orders differ decides, and an order comes before those that go on
/// from it.
pub proof fn first_different_level_decides(a: Seq<u32>, b: Seq<u32>, i: int)
    requires
        0 <= i <= a.len(),
        i < b.len(),
        a.take(i) == b.take(i),
        i < a.len() ==> a[i] != b[i],
    ensures
        i == a.len() ==> levels_below(a, b) && !levels_below(b, a),
        i < a.len() ==> (levels_below(a, b) <==> a[i] < b[i]),
    decreases i,
{
    if i > 0 {
        assert(a[0] == a.take(i)[0]);
        assert(b[0] == b.take(i)[0]);
        assert(a.skip(1).take(i - 1) =~= a.take(i).skip(1));
        assert(b.skip(1).take(i - 1) =~= b.take(i).skip(1));
        first_different_level_decides(a.skip(1), b.skip(1), i - 1);
    }
}

/// Of two layers the lower comes first, and of two at one level the one that came first.
pub proof fn lower_layers_come_first(orders: Seq<StackingOrder>, i: usize, j: usize)
    requires
        i < orders.len(),
        j < orders.len(),
    ensures
        levels_below(orders[i as int]@, orders[j as int]@) ==> comes_before(orders, i, j)
            && !comes_before(orders, j, i),
        orders[i as int]@ == orders[j as int]@ ==> (comes_before(orders, i, j) <==> i < j),
{
    not_below_itself(orders[i as int]@);
    if levels_below(orders[i as int]@, orders[j as int]@) && levels_below(
        orders[j as int]@,
        orders[i as int]@,
    ) {
        below_is_transitive(orders[i as int]@, orders[j as int]@, orders[i as int]@);
    }
}

/// Layers in turn never go down.
pub proof fn layers_in_turn_go_up(orders: Seq<StackingOrder>, places: Seq<usize>, a: int, b: int)
    requires
        in_turn(orders, places),
        0 <= a < b < places.len(),
    ensures
        !levels_below(orders[places[b] as int]@, orders[places[a] as int]@),
        places[a] != places[b],
{
    let (x, y) = (orders[places[a] as int]@, orders[places[b] as int]@);
    assert(comes_before(orders, places[a], places[b]));
    not_below_itself(x);
    if levels_below(x, y) && levels_below(y, x) {
        below_is_transitive(x, y, x);
    }
}

} // verus!
