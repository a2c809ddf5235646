//! The short lists of keystrokes that bindings hold, kept in a `SmallVec`.
use vstd::prelude::*;
use crate::keystroke::Keystroke;

verus! {

/// A list of keystrokes with room for two of them in place.
#[verifier::external_body]
pub struct KeystrokeList {
    inner: smallvec::SmallVec<[Keystroke; 2]>,
}

/// The keystrokes that a list holds, in order.
pub uninterp spec fn listed(list: KeystrokeList) -> Seq<Keystroke>;

impl KeystrokeList {
    /// `SmallVec::new`: a list that holds nothing.
    #[verifier::external_body]
    pub(crate) fn new() -> (r: KeystrokeList)
        ensures
            listed(r) == Seq::<Keystroke>::empty(),
    {
        KeystrokeList { inner: smallvec::SmallVec::new() }
    }

    /// `SmallVec::push` puts an item behind the others.
    #[verifier::external_body]
    pub(crate) fn push(&mut self, key: Keystroke)
        ensures
            listed(*final(self)) == listed(*old(self)).push(key),
    {
        self.inner.push(key)
    }

    /// `SmallVec::as_slice` shows all items in order.
    #[verifier::external_body]
    pub(crate) fn as_slice(&self) -> (r: &[Keystroke])
        ensures
            r@ == listed(*self),
    {
        self.inner.as_slice()
    }
}

} // verus!
