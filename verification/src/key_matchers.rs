//! The keystrokes that wait for more, for each element of a window.
use vstd::prelude::*;
use vstd::std_specs::iter::IteratorSpec;
use std::collections::HashMap;
use crate::keystroke::{strokes, Keystroke, KeystrokeView};

verus! {

broadcast use vstd::std_specs::hash::group_hash_axioms;

/// The keystrokes that wait at the elements of the frame that is being painted, and what is left of
/// the frame before.
pub struct KeyMatchers {
    current: HashMap<u64, Vec<Keystroke>>,
    previous: HashMap<u64, Vec<Keystroke>>,
}

/// The meaning of the keystrokes that wait.
#[verifier::ext_equal]
pub struct KeyMatchersView {
    pub current: Map<u64, Seq<KeystrokeView>>,
    pub previous: Map<u64, Seq<KeystrokeView>>,
}

/// The meaning of lists of keystrokes.
pub open spec fn waiting(lists: Map<u64, Vec<Keystroke>>) -> Map<u64, Seq<KeystrokeView>> {
    lists.map_values(|keys: Vec<Keystroke>| strokes(keys@))
}

impl View for KeyMatchers {
    type V = KeyMatchersView;

    closed spec fn view(&self) -> KeyMatchersView {
        KeyMatchersView { current: waiting(self.current@), previous: waiting(self.previous@) }
    }
}

/// After an element with an identity was reached in a frame: what waited at it in the frame before
/// goes on to wait. One that was reached already stays as it is.
pub open spec fn entered(m: KeyMatchersView, id: u64) -> KeyMatchersView {
    if m.current.dom().contains(id) {
        m
    } else {
        KeyMatchersView {
            current: m.current.insert(
                id,
                if m.previous.dom().contains(id) {
                    m.previous[id]
                } else {
                    Seq::empty()
                },
            ),
            previous: m.previous.remove(id),
        }
    }
}

/// When a new frame begins.
pub open spec fn next_frame(m: KeyMatchersView) -> KeyMatchersView {
    KeyMatchersView { current: Map::empty(), previous: m.current }
}

/// After a keystroke at an element. Once it has led to an action, nothing waits at any element of the
/// frame.
pub open spec fn key_matched(
    m: KeyMatchersView,
    id: u64,
    pending: Seq<KeystrokeView>,
    matched: bool,
) -> KeyMatchersView {
    KeyMatchersView {
        current: if matched {
            m.current.map_values(|keys: Seq<KeystrokeView>| Seq::<KeystrokeView>::empty())
        } else {
            m.current.insert(id, pending)
        },
        ..m
    }
}

/// What waits at an element that is painted again waits in the next frame too, and an element that
/// is not painted forgets it.
pub proof fn keys_wait_for_painted_elements(m: KeyMatchersView, id: u64)
    ensures
        m.current.dom().contains(id) ==> entered(next_frame(m), id).current[id] == m.current[id],
        next_frame(next_frame(m)).previous.dom() =~= Set::empty(),
        entered(next_frame(next_frame(m)), id).current[id] == Seq::<KeystrokeView>::empty(),
{
}

/// A match at one element makes those at all others begin afresh; a keystroke that leads to no action
/// leaves them alone.
pub proof fn match_clears_all_elements(
    m: KeyMatchersView,
    id: u64,
    pending: Seq<KeystrokeView>,
    other: u64,
)
    requires
        m.current.dom().contains(id),
        m.current.dom().contains(other),
    ensures
        key_matched(m, id, pending, true).current[other] == Seq::<KeystrokeView>::empty(),
        other != id ==> key_matched(m, id, pending, false).current[other] == m.current[other],
{
}

impl KeyMatchers {
    /// There is no element yet.
    pub fn new() -> (r: KeyMatchers)
        ensures
            r@ == (KeyMatchersView { current: Map::empty(), previous: Map::empty() }),
    {
        let r = KeyMatchers { current: HashMap::new(), previous: HashMap::new() };
        assert(r@ =~= KeyMatchersView { current: Map::empty(), previous: Map::empty() });
        r
    }

    /// Begins a new frame.
    pub fn start_frame(&mut self)
        ensures
            final(self)@ == next_frame(old(self)@),
    {
        let mut lists: HashMap<u64, Vec<Keystroke>> = HashMap::new();
        std::mem::swap(&mut lists, &mut self.current);
        self.previous = lists;
        assert(self@ =~= next_frame(old(self)@));
    }

    /// Reaches an element with an identity.
    pub fn enter(&mut self, id: u64)
        ensures
            final(self)@ == entered(old(self)@, id),
    {
        if self.current.contains_key(&id) {
            return;
        }
        let keys: Vec<Keystroke> = match self.previous.remove(&id) {
            Some(keys) => keys,
            None => Vec::new(),
        };
        assert(strokes(keys@) =~= entered(old(self)@, id).current[id]);
        self.current.insert(id, keys);
        assert(self@ =~= entered(old(self)@, id));
    }

    /// The keystrokes that wait at an element.
    pub fn pending(&self, id: u64) -> (r: Option<&Vec<Keystroke>>)
        ensures
            match r {
                Some(keys) => self@.current.dom().contains(id) && strokes(keys@)
                    == self@.current[id],
                None => !self@.current.dom().contains(id),
            },
    {
        self.current.get(&id)
    }

    /// A keystroke came to an element: `pending` waits there now, and `action` is what it led to.
    pub fn match_keystroke(
        &mut self,
        id: u64,
        pending: Vec<Keystroke>,
        action: Option<usize>,
    ) -> (r: Option<usize>)
        requires
            old(self)@.current.dom().contains(id),
        ensures
            r == action,
            final(self)@ == key_matched(old(self)@, id, strokes(pending@), action is Some),
    {
        if action.is_some() {
            self.clear_all();
        } else {
            self.current.insert(id, pending);
        }
        assert(self@ =~= key_matched(old(self)@, id, strokes(pending@), action is Some));
        action
    }

    fn clear_all(&mut self)
        ensures
            final(self)@.previous == old(self)@.previous,
            final(self)@.current.dom() == old(self)@.current.dom(),
            forall|id: u64|
                old(self)@.current.dom().contains(id) ==> #[trigger] final(self)@.current[id]
                    == Seq::<KeystrokeView>::empty(),
    {
        let mut ids: Vec<u64> = Vec::new();
        for id in iter: self.current.keys()
            invariant
                ids@ == iter.seq().unref().take(iter.index() as int),
        {
            ids.push(*id);
        }
        assert(ids@ =~= self.current.keys().remaining().unref());
        assert(ids@.to_set() == self.current@.dom());
        let mut i: usize = 0;
        while i < ids.len()
            invariant
                i <= ids@.len(),
                self.previous == old(self).previous,
                ids@.to_set() == self.current@.dom(),
                self.current@.dom() == old(self).current@.dom(),
                forall|k: int| 0 <= k < i ==> strokes(self.current@[#[trigger] ids@[k]]@)
                    == Seq::<KeystrokeView>::empty(),
            decreases ids.len() - i,
        {
            let keys: Vec<Keystroke> = Vec::new();
            assert(strokes(keys@) =~= Seq::empty());
            assert(ids@.to_set().contains(ids@[i as int]));
            self.current.insert(ids[i], keys);
            assert(self.current@.dom() =~= old(self).current@.dom());
            i += 1;
        }
        assert forall|id: u64| old(self)@.current.dom().contains(id) implies #[trigger] self@.current[id]
            == Seq::<KeystrokeView>::empty() by {
            assert(ids@.to_set().contains(id));
        }
        assert(self@.current.dom() =~= old(self)@.current.dom());
    }
}

impl Default for KeyMatchers {
    fn default() -> (r: Self)
        ensures
            r@ == (KeyMatchersView { current: Map::empty(), previous: Map::empty() }),
    {
        KeyMatchers::new()
    }
}

/// An element that is entered has the keys that wait for it, from this frame or else from the one
/// before, and none if nothing waits. All others stay as they are.
pub proof fn entered_elements_have_their_keys(m: KeyMatchersView, id: u64, other: u64)
    ensures
        m.current.dom().contains(id) ==> entered(m, id) == m,
        entered(m, id).current.dom().contains(id),
        !m.current.dom().contains(id) && m.previous.dom().contains(id) ==> entered(m, id).current[id]
            == m.previous[id],
        !m.current.dom().contains(id) && !m.previous.dom().contains(id) ==> entered(
            m,
            id,
        ).current[id].len() == 0,
        other != id ==> (entered(m, id).current.dom().contains(other) <==> m.current.dom().contains(
            other,
        )),
        other != id && m.current.dom().contains(other) ==> entered(m, id).current[other]
            == m.current[other],
        other != id && m.previous.dom().contains(other) ==> entered(m, id).previous.dom().contains(
            other,
        ) && entered(m, id).previous[other] == m.previous[other],
{
}

/// A key that matches nothing yet waits at its element.
pub proof fn unmatched_keys_wait(m: KeyMatchersView, id: u64, pending: Seq<KeystrokeView>)
    ensures
        key_matched(m, id, pending, false).current[id] == pending,
        key_matched(m, id, pending, false).current.dom() =~= m.current.dom().insert(id),
        key_matched(m, id, pending, true).current.dom() =~= m.current.dom(),
        key_matched(m, id, pending, false).previous == m.previous,
        key_matched(m, id, pending, true).previous == m.previous,
{
}

} // verus!
