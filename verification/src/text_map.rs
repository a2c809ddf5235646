//! Sets and maps of text. Both keep their items in a vector in which no key occurs twice.
use vstd::prelude::*;
use crate::text::same_text;

verus! {

/// A set of texts.
#[derive(Debug)]
pub struct TextSet {
    items: Vec<String>,
}

spec fn distinct_texts(items: Seq<String>) -> bool {
    forall|i: int, j: int|
        0 <= i < j < items.len() ==> (#[trigger] items[i])@ != (#[trigger] items[j])@
}

spec fn holds_text(items: Seq<String>, t: Seq<char>) -> bool {
    exists|i: int| 0 <= i < items.len() && (#[trigger] items[i])@ == t
}

impl View for TextSet {
    type V = Set<Seq<char>>;

    closed spec fn view(&self) -> Set<Seq<char>> {
        Set::new(|t: Seq<char>| holds_text(self.items@, t))
    }
}

impl TextSet {
    #[verifier::type_invariant]
    closed spec fn distinct(self) -> bool {
        distinct_texts(self.items@)
    }

    /// The empty set.
    pub fn new() -> (r: Self)
        ensures
            r@ == Set::<Seq<char>>::empty(),
    {
        let r = TextSet { items: Vec::new() };
        assert(r@ =~= Set::empty());
        r
    }

    fn position(&self, t: &str) -> (r: Option<usize>)
        ensures
            r matches Some(i) ==> i < self.items@.len() && self.items@[i as int]@ == t@,
            r is None ==> !self@.contains(t@),
    {
        let mut i: usize = 0;
        while i < self.items.len()
            invariant
                i <= self.items.len(),
                forall|j: int| 0 <= j < i ==> (#[trigger] self.items@[j])@ != t@,
            decreases self.items.len() - i,
        {
            if same_text(self.items[i].as_str(), t) {
                return Some(i);
            }
            i += 1;
        }
        None
    }

    /// Whether `t` is in the set.
    pub fn contains(&self, t: &str) -> (r: bool)
        ensures
            r == self@.contains(t@),
    {
        match self.position(t) {
            Some(_) => true,
            None => false,
        }
    }

    /// Adds `t`; answers whether it was missing before.
    pub fn insert(&mut self, t: String) -> (added: bool)
        ensures
            final(self)@ == old(self)@.insert(t@),
            added == !old(self)@.contains(t@),
    {
        proof {
            use_type_invariant(&*self);
        }
        if self.contains(t.as_str()) {
            assert(self@ =~= old(self)@.insert(t@));
            return false;
        }
        let mut items: Vec<String> = Vec::new();
        std::mem::swap(&mut items, &mut self.items);
        let ghost before = items@;
        let ghost text = t@;
        items.push(t);
        proof {
            assert forall|i: int, j: int| 0 <= i < j < items@.len() implies (
            #[trigger] items@[i])@ != (#[trigger] items@[j])@ by {
                if j == before.len() {
                    assert(!holds_text(before, text));
                    assert(before[i]@ != text);
                }
            }
        }
        self.items = items;
        proof {
            assert forall|x: Seq<char>| holds_text(self.items@, x) == (holds_text(before, x) || x
                == text) by {
                if holds_text(before, x) {
                    let i = choose|i: int| 0 <= i < before.len() && (#[trigger] before[i])@ == x;
                    assert(self.items@[i]@ == x);
                }
                if x == text {
                    assert(self.items@[before.len() as int]@ == x);
                }
                if holds_text(self.items@, x) && x != text {
                    let i = choose|i: int|
                        0 <= i < self.items@.len() && (#[trigger] self.items@[i])@ == x;
                    assert(before[i]@ == x);
                }
            }
            assert(self@ =~= old(self)@.insert(text));
        }
        true
    }

    /// Takes `t` out; answers whether it was there.
    pub fn remove(&mut self, t: &str) -> (removed: bool)
        ensures
            final(self)@ == old(self)@.remove(t@),
            removed == old(self)@.contains(t@),
    {
        proof {
            use_type_invariant(&*self);
        }
        match self.position(t) {
            None => {
                assert(self@ =~= old(self)@.remove(t@));
                false
            },
            Some(at) => {
                let mut items: Vec<String> = Vec::new();
                std::mem::swap(&mut items, &mut self.items);
                let ghost before = items@;
                let _gone = items.remove(at);
                self.items = items;
                proof {
                    let after = self.items@;
                    assert forall|x: Seq<char>| holds_text(after, x) == (holds_text(before, x) && x
                        != t@) by {
                        if holds_text(before, x) && x != t@ {
                            let i = choose|i: int|
                                0 <= i < before.len() && (#[trigger] before[i])@ == x;
                            let k = if i < at { i } else { i - 1 };
                            assert(after[k]@ == x);
                        }
                        if holds_text(after, x) {
                            let i = choose|i: int|
                                0 <= i < after.len() && (#[trigger] after[i])@ == x;
                            let k = if i < at { i } else { i + 1 };
                            assert(before[k]@ == x);
                            assert(before[at as int]@ == t@);
                        }
                    }
                    assert(holds_text(before, t@));
                    assert(self@ =~= old(self)@.remove(t@));
                }
                true
            },
        }
    }

    fn within(&self, other: &Self) -> (r: bool)
        ensures
            r == self@.subset_of(other@),
    {
        let mut i: usize = 0;
        while i < self.items.len()
            invariant
                i <= self.items.len(),
                forall|j: int| 0 <= j < i ==> other@.contains((#[trigger] self.items@[j])@),
            decreases self.items.len() - i,
        {
            if !other.contains(self.items[i].as_str()) {
                assert(self@.contains(self.items@[i as int]@));
                return false;
            }
            i += 1;
        }
        true
    }

    /// Whether both sets hold the same texts.
    pub fn same(&self, other: &Self) -> (r: bool)
        ensures
            r == (self@ == other@),
    {
        let r: bool = self.within(other) && other.within(self);
        proof {
            if r {
                assert(self@ =~= other@);
            }
        }
        r
    }

    /// Adds every text of `other`.
    pub fn extend(&mut self, other: &Self)
        ensures
            final(self)@ == old(self)@.union(other@),
    {
        let mut i: usize = 0;
        while i < other.items.len()
            invariant
                i <= other.items.len(),
                self@ == old(self)@.union(
                    Set::new(|t: Seq<char>| holds_text(other.items@.take(i as int), t)),
                ),
            decreases other.items.len() - i,
        {
            let ghost before = other.items@.take(i as int);
            let ghost after = other.items@.take(i + 1);
            self.insert(other.items[i].clone());
            proof {
                let text = other.items@[i as int]@;
                assert forall|x: Seq<char>| holds_text(after, x) == (holds_text(before, x) || x
                    == text) by {
                    if holds_text(before, x) {
                        let k = choose|k: int| 0 <= k < before.len() && (#[trigger] before[k])@ == x;
                        assert(after[k]@ == x);
                    }
                    if x == text {
                        assert(after[i as int]@ == x);
                    }
                    if holds_text(after, x) && x != text {
                        let k = choose|k: int| 0 <= k < after.len() && (#[trigger] after[k])@ == x;
                        assert(before[k]@ == x);
                    }
                }
                assert(self@ =~= old(self)@.union(Set::new(|t: Seq<char>| holds_text(after, t))));
            }
            i += 1;
        }
        assert(other.items@.take(i as int) =~= other.items@);
    }
}

impl Clone for TextSet {
    fn clone(&self) -> (r: Self)
        ensures
            r@ == self@,
    {
        let mut r = TextSet::new();
        r.extend(self);
        assert(r@ =~= self@);
        r
    }
}

impl Default for TextSet {
    fn default() -> (r: Self)
        ensures
            r@ == Set::<Seq<char>>::empty(),
    {
        TextSet::new()
    }
}

impl PartialEq for TextSet {
    fn eq(&self, other: &Self) -> (r: bool) {
        self.same(other)
    }
}

impl vstd::std_specs::cmp::PartialEqSpecImpl for TextSet {
    open spec fn obeys_eq_spec() -> bool {
        true
    }

    open spec fn eq_spec(&self, other: &Self) -> bool {
        self@ == other@
    }
}

impl Eq for TextSet {

}

/// A map from text to text.
#[derive(Debug)]
pub struct TextMap {
    entries: Vec<(String, String)>,
}

spec fn distinct_keys(entries: Seq<(String, String)>) -> bool {
    forall|i: int, j: int|
        0 <= i < j < entries.len() ==> (#[trigger] entries[i]).0@ != (#[trigger] entries[j]).0@
}

spec fn key_at(entries: Seq<(String, String)>, k: Seq<char>, i: int) -> bool {
    0 <= i < entries.len() && entries[i].0@ == k
}

spec fn holds_key(entries: Seq<(String, String)>, k: Seq<char>) -> bool {
    exists|i: int| key_at(entries, k, i)
}

spec fn value_of(entries: Seq<(String, String)>, k: Seq<char>) -> Seq<char> {
    entries[choose|i: int| key_at(entries, k, i)].1@
}

proof fn lemma_value_of(entries: Seq<(String, String)>, i: int)
    requires
        distinct_keys(entries),
        0 <= i < entries.len(),
    ensures
        holds_key(entries, entries[i].0@),
        value_of(entries, entries[i].0@) == entries[i].1@,
{
    let k = entries[i].0@;
    assert(key_at(entries, k, i));
    let c = choose|c: int| key_at(entries, k, c);
    assert(key_at(entries, k, c));
    if c < i {
        assert(entries[c].0@ != entries[i].0@);
    } else if i < c {
        assert(entries[i].0@ != entries[c].0@);
    }
}

impl View for TextMap {
    type V = Map<Seq<char>, Seq<char>>;

    closed spec fn view(&self) -> Map<Seq<char>, Seq<char>> {
        Map::new(
            |k: Seq<char>| holds_key(self.entries@, k),
            |k: Seq<char>| value_of(self.entries@, k),
        )
    }
}

impl TextMap {
    #[verifier::type_invariant]
    closed spec fn distinct(self) -> bool {
        distinct_keys(self.entries@)
    }

    /// The empty map.
    pub fn new() -> (r: Self)
        ensures
            r@ == Map::<Seq<char>, Seq<char>>::empty(),
    {
        let r = TextMap { entries: Vec::new() };
        assert(r@ =~= Map::empty());
        r
    }

    fn position(&self, k: &str) -> (r: Option<usize>)
        ensures
            r matches Some(i) ==> key_at(self.entries@, k@, i as int),
            r is None ==> !self@.dom().contains(k@),
    {
        let mut i: usize = 0;
        while i < self.entries.len()
            invariant
                i <= self.entries.len(),
                forall|j: int| 0 <= j < i ==> (#[trigger] self.entries@[j]).0@ != k@,
            decreases self.entries.len() - i,
        {
            if same_text(self.entries[i].0.as_str(), k) {
                return Some(i);
            }
            i += 1;
        }
        None
    }

    /// The value under `k`.
    pub fn get(&self, k: &str) -> (r: Option<&String>)
        ensures
            r is Some == self@.dom().contains(k@),
            r matches Some(v) ==> v@ == self@[k@],
    {
        proof {
            use_type_invariant(self);
        }
        match self.position(k) {
            Some(i) => {
                proof {
                    lemma_value_of(self.entries@, i as int);
                }
                Some(&self.entries[i].1)
            },
            None => None,
        }
    }

    /// Puts `v` under `k`, in place of the value that was there.
    pub fn insert(&mut self, k: String, v: String)
        ensures
            final(self)@ == old(self)@.insert(k@, v@),
    {
        proof {
            use_type_invariant(&*self);
        }
        let ghost key = k@;
        let ghost value = v@;
        let found = self.position(k.as_str());
        let mut entries: Vec<(String, String)> = Vec::new();
        std::mem::swap(&mut entries, &mut self.entries);
        let ghost before = entries@;
        let ghost slot: int = match found {
            Some(i) => i as int,
            None => before.len() as int,
        };
        match found {
            Some(i) => {
                entries.set(i, (k, v));
            },
            None => {
                entries.push((k, v));
            },
        }
        proof {
            let after = entries@;
            assert(after[slot].0@ == key && after[slot].1@ == value);
            assert forall|i: int| 0 <= i < before.len() && i != slot implies after[i] == before[i]
                && before[i].0@ != key by {
                if found is Some {
                    if i < slot {
                        assert(before[i].0@ != before[slot].0@);
                    } else {
                        assert(before[slot].0@ != before[i].0@);
                    }
                } else {
                    assert(!holds_key(before, key));
                    assert(!key_at(before, key, i));
                }
            }
            assert(distinct_keys(after));
        }
        self.entries = entries;
        proof {
            let after = self.entries@;
            lemma_value_of(after, slot);
            assert forall|x: Seq<char>| x != key implies holds_key(after, x) == holds_key(before, x)
                && (holds_key(after, x) ==> value_of(after, x) == value_of(before, x)) by {
                if holds_key(before, x) {
                    let i = choose|i: int| key_at(before, x, i);
                    assert(key_at(after, x, i));
                    lemma_value_of(before, i);
                    lemma_value_of(after, i);
                }
                if holds_key(after, x) {
                    let i = choose|i: int| key_at(after, x, i);
                    assert(key_at(before, x, i));
                }
            }
            assert(self@ =~= old(self)@.insert(key, value));
        }
    }

    fn within(&self, other: &Self) -> (r: bool)
        ensures
            r == self@.submap_of(other@),
    {
        proof {
            use_type_invariant(self);
        }
        let mut i: usize = 0;
        while i < self.entries.len()
            invariant
                distinct_keys(self.entries@),
                i <= self.entries.len(),
                forall|j: int|
                    0 <= j < i ==> {
                        &&& other@.dom().contains((#[trigger] self.entries@[j]).0@)
                        &&& other@[self.entries@[j].0@] == self.entries@[j].1@
                    },
            decreases self.entries.len() - i,
        {
            proof {
                lemma_value_of(self.entries@, i as int);
                assert(self@.dom().contains(self.entries@[i as int].0@));
            }
            match other.get(self.entries[i].0.as_str()) {
                None => {
                    return false;
                },
                Some(v) => {
                    if !same_text(v.as_str(), self.entries[i].1.as_str()) {
                        return false;
                    }
                },
            }
            i += 1;
        }
        proof {
            assert forall|k: Seq<char>| #[trigger] self@.dom().contains(k) implies other@.dom().contains(
                k,
            ) && self@[k] == other@[k] by {
                let j = choose|j: int| key_at(self.entries@, k, j);
                assert(key_at(self.entries@, k, j));
                lemma_value_of(self.entries@, j);
            }
        }
        true
    }

    /// Whether both maps hold the same values under the same keys.
    pub fn same(&self, other: &Self) -> (r: bool)
        ensures
            r == (self@ == other@),
    {
        let r: bool = self.within(other) && other.within(self);
        proof {
            if r {
                assert(self@ =~= other@);
            }
        }
        r
    }

    /// Puts every entry of `other` into this map; its values win.
    pub fn extend(&mut self, other: &Self)
        ensures
            final(self)@ == old(self)@.union_prefer_right(other@),
    {
        proof {
            use_type_invariant(other);
        }
        let mut i: usize = 0;
        assert(self@ =~= old(self)@.union_prefer_right(prefix_map(other.entries@, 0)));
        while i < other.entries.len()
            invariant
                distinct_keys(other.entries@),
                i <= other.entries.len(),
                self@ == old(self)@.union_prefer_right(prefix_map(other.entries@, i as int)),
            decreases other.entries.len() - i,
        {
            self.insert(other.entries[i].0.clone(), other.entries[i].1.clone());
            proof {
                let all = other.entries@;
                lemma_prefix_map(all, i as int);
                assert(self@ =~= old(self)@.union_prefer_right(prefix_map(all, i + 1)));
            }
            i += 1;
        }
        assert(other.entries@.take(i as int) =~= other.entries@);
        assert(prefix_map(other.entries@, i as int) =~= other@);
    }
}

spec fn prefix_map(entries: Seq<(String, String)>, n: int) -> Map<Seq<char>, Seq<char>> {
    Map::new(
        |k: Seq<char>| holds_key(entries.take(n), k),
        |k: Seq<char>| value_of(entries.take(n), k),
    )
}

proof fn lemma_prefix_map(entries: Seq<(String, String)>, n: int)
    requires
        distinct_keys(entries),
        0 <= n < entries.len(),
    ensures
        prefix_map(entries, n + 1) == prefix_map(entries, n).insert(entries[n].0@, entries[n].1@),
{
    let short = entries.take(n);
    let long = entries.take(n + 1);
    let key = entries[n].0@;
    lemma_value_of(long, n);
    assert forall|x: Seq<char>| x != key implies holds_key(long, x) == holds_key(short, x) && (
    holds_key(long, x) ==> value_of(long, x) == value_of(short, x)) by {
        if holds_key(short, x) {
            let i = choose|i: int| key_at(short, x, i);
            assert(key_at(long, x, i));
            lemma_value_of(short, i);
            lemma_value_of(long, i);
        }
        if holds_key(long, x) {
            let i = choose|i: int| key_at(long, x, i);
            assert(key_at(short, x, i));
        }
    }
    assert(prefix_map(entries, n + 1) =~= prefix_map(entries, n).insert(key, entries[n].1@));
}

impl Clone for TextMap {
    fn clone(&self) -> (r: Self)
        ensures
            r@ == self@,
    {
        let mut r = TextMap::new();
        r.extend(self);
        assert(r@ =~= self@);
        r
    }
}

impl Default for TextMap {
    fn default() -> (r: Self)
        ensures
            r@ == Map::<Seq<char>, Seq<char>>::empty(),
    {
        TextMap::new()
    }
}

impl PartialEq for TextMap {
    fn eq(&self, other: &Self) -> (r: bool) {
        self.same(other)
    }
}

impl vstd::std_specs::cmp::PartialEqSpecImpl for TextMap {
    open spec fn obeys_eq_spec() -> bool {
        true
    }

    open spec fn eq_spec(&self, other: &Self) -> bool {
        self@ == other@
    }
}

impl Eq for TextMap {

}

} // verus!
