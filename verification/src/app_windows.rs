//! The windows of the application: which view is at the root of each, which one has the focus, and
//! which ones have to be drawn again.
use vstd::prelude::*;
use vstd::std_specs::iter::IteratorSpec;
use std::collections::HashMap;
use crate::ref_counts::no_repeats;

verus! {

broadcast use vstd::std_specs::hash::group_hash_axioms;

/// What changed in a window since it was last drawn: views that were updated, and views that were
/// removed, in the order of their removal.
pub struct WindowInvalidation {
    updated: Vec<usize>,
    removed: Vec<usize>,
}

/// The meaning of an invalidation.
#[verifier::ext_equal]
pub struct InvalidationView {
    pub updated: Set<usize>,
    pub removed: Seq<usize>,
}

/// An invalidation that names no view.
pub open spec fn nothing_changed() -> InvalidationView {
    InvalidationView { updated: Set::empty(), removed: Seq::empty() }
}

impl View for WindowInvalidation {
    type V = InvalidationView;

    closed spec fn view(&self) -> InvalidationView {
        InvalidationView { updated: self.updated@.to_set(), removed: self.removed@ }
    }
}

impl WindowInvalidation {
    /// No view changed.
    pub fn new() -> (r: WindowInvalidation)
        ensures
            r@ == nothing_changed(),
    {
        let r = WindowInvalidation { updated: Vec::new(), removed: Vec::new() };
        assert(r@ =~= nothing_changed());
        r
    }

    #[verifier::type_invariant]
    spec fn inv(self) -> bool {
        no_repeats(self.updated@)
    }

    /// Whether a view was updated.
    pub fn is_updated(&self, view_id: usize) -> (r: bool)
        ensures
            r == self@.updated.contains(view_id),
    {
        let mut i: usize = 0;
        while i < self.updated.len()
            invariant
                i <= self.updated.len(),
                forall|k: int| 0 <= k < i ==> self.updated@[k] != view_id,
            decreases self.updated.len() - i,
        {
            if self.updated[i] == view_id {
                assert(self.updated@[i as int] == view_id);
                return true;
            }
            i += 1;
        }
        false
    }

    /// The views that were updated.
    pub fn updated(&self) -> (r: &Vec<usize>)
        ensures
            r@.to_set() == self@.updated,
            no_repeats(r@),
    {
        proof {
            use_type_invariant(self);
        }
        &self.updated
    }

    /// The views that were removed.
    pub fn removed(&self) -> (r: &Vec<usize>)
        ensures
            r@ == self@.removed,
    {
        &self.removed
    }

    fn mark_updated(&mut self, view_id: usize)
        ensures
            final(self)@ == (InvalidationView {
                updated: old(self)@.updated.insert(view_id),
                ..old(self)@
            }),
    {
        if !self.is_updated(view_id) {
            proof {
                use_type_invariant(&*self);
            }
            let mut updated: Vec<usize> = Vec::new();
            std::mem::swap(&mut updated, &mut self.updated);
            let ghost before = updated@;
            updated.push(view_id);
            proof {
                assert forall|x: usize| #[trigger] updated@.to_set().contains(x)
                    <==> before.to_set().insert(view_id).contains(x) by {
                    if before.contains(x) {
                        let k = choose|k: int| 0 <= k < before.len() && before[k] == x;
                        assert(updated@[k] == x);
                    }
                    assert(updated@[before.len() as int] == view_id);
                    if updated@.contains(x) && x != view_id {
                        let k = choose|k: int| 0 <= k < updated@.len() && updated@[k] == x;
                        assert(before[k] == x);
                    }
                }
                assert(updated@.to_set() =~= before.to_set().insert(view_id));
                assert forall|i: int, j: int| 0 <= i < j < updated@.len() implies updated@[i]
                    != updated@[j] by {
                    if j == before.len() {
                        assert(before.contains(before[i]));
                    }
                }
            }
            self.updated = updated;
        }
        assert(self@ =~= InvalidationView {
            updated: old(self)@.updated.insert(view_id),
            ..old(self)@
        });
    }

    fn mark_removed(&mut self, view_id: usize)
        ensures
            final(self)@ == (InvalidationView {
                removed: old(self)@.removed.push(view_id),
                ..old(self)@
            }),
    {
        proof {
            use_type_invariant(&*self);
        }
        let mut removed: Vec<usize> = Vec::new();
        std::mem::swap(&mut removed, &mut self.removed);
        removed.push(view_id);
        self.removed = removed;
        assert(self@ =~= InvalidationView {
            removed: old(self)@.removed.push(view_id),
            ..old(self)@
        });
    }
}

struct WindowState {
    root_view: usize,
    focused_view_id: usize,
    invalidation: Option<WindowInvalidation>,
}

/// The meaning of a window.
#[verifier::ext_equal]
pub struct WindowView {
    pub root_view: usize,
    pub focused_view_id: usize,
    pub invalidation: Option<InvalidationView>,
}

impl WindowState {
    spec fn view(&self) -> WindowView {
        WindowView {
            root_view: self.root_view,
            focused_view_id: self.focused_view_id,
            invalidation: match self.invalidation {
                Some(i) => Some(i@),
                None => None,
            },
        }
    }
}

/// What changed so far.
pub open spec fn invalidation_of(w: WindowView) -> InvalidationView {
    match w.invalidation {
        Some(i) => i,
        None => nothing_changed(),
    }
}

/// A window in which a view was updated.
pub open spec fn with_updated(w: WindowView, view_id: usize) -> WindowView {
    let i = invalidation_of(w);
    WindowView {
        invalidation: Some(InvalidationView { updated: i.updated.insert(view_id), ..i }),
        ..w
    }
}

/// A window in which a view was removed.
pub open spec fn with_removed(w: WindowView, view_id: usize) -> WindowView {
    let i = invalidation_of(w);
    WindowView {
        invalidation: Some(InvalidationView { removed: i.removed.push(view_id), ..i }),
        ..w
    }
}

/// What a change of the focus does: nothing if the view has it, otherwise the view that had it loses
/// it first. A window that does not exist has no view that loses it.
#[derive(Clone, Copy, Debug, PartialEq, Eq, Structural)]
pub enum FocusChange {
    Unchanged,
    Moved { blurred: Option<usize> },
}

/// All windows.
pub struct AppWindows {
    windows: HashMap<usize, WindowState>,
    next_window_id: usize,
}

/// The meaning of the windows.
#[verifier::ext_equal]
pub struct WindowsView {
    pub windows: Map<usize, WindowView>,
    pub next_window_id: usize,
}

impl View for AppWindows {
    type V = WindowsView;

    closed spec fn view(&self) -> WindowsView {
        WindowsView {
            windows: self.windows@.map_values(|w: WindowState| w@),
            next_window_id: self.next_window_id,
        }
    }
}

/// The windows with one of them replaced.
pub open spec fn replaced(w: WindowsView, id: usize, window: WindowView) -> WindowsView {
    WindowsView { windows: w.windows.insert(id, window), ..w }
}

/// What a change of the focus does to the windows.
pub open spec fn focused(w: WindowsView, window_id: usize, view_id: usize) -> (
    WindowsView,
    FocusChange,
) {
    if !w.windows.dom().contains(window_id) {
        (w, FocusChange::Moved { blurred: None })
    } else if w.windows[window_id].focused_view_id == view_id {
        (w, FocusChange::Unchanged)
    } else {
        (
            replaced(
                w,
                window_id,
                WindowView { focused_view_id: view_id, ..w.windows[window_id] },
            ),
            FocusChange::Moved { blurred: Some(w.windows[window_id].focused_view_id) },
        )
    }
}

/// A view that has the focus keeps it without anybody being told.
pub proof fn focusing_twice_is_focusing_once(w: WindowsView, window_id: usize, view_id: usize)
    requires
        w.windows.dom().contains(window_id),
    ensures
        focused(focused(w, window_id, view_id).0, window_id, view_id) == (
            focused(w, window_id, view_id).0,
            FocusChange::Unchanged,
        ),
{
}

/// Giving the focus back tells the two views in the opposite order.
pub proof fn focus_can_be_given_back(w: WindowsView, window_id: usize, view_id: usize)
    requires
        w.windows.dom().contains(window_id),
        w.windows[window_id].focused_view_id != view_id,
    ensures
        focused(
            focused(w, window_id, view_id).0,
            window_id,
            w.windows[window_id].focused_view_id,
        ) == (w, FocusChange::Moved { blurred: Some(view_id) }),
{
    let back = focused(
        focused(w, window_id, view_id).0,
        window_id,
        w.windows[window_id].focused_view_id,
    ).0;
    assert(back.windows =~= w.windows);
}

impl AppWindows {
    /// No windows.
    pub fn new() -> (r: AppWindows)
        ensures
            r@ == (WindowsView { windows: Map::empty(), next_window_id: 0 }),
    {
        let r = AppWindows { windows: HashMap::new(), next_window_id: 0 };
        assert(r@.windows =~= Map::empty());
        r
    }

    /// Numbers a new window.
    pub fn next_window(&mut self) -> (id: usize)
        requires
            old(self)@.next_window_id < usize::MAX,
        ensures
            id == old(self)@.next_window_id,
            final(self)@ == (WindowsView {
                next_window_id: (old(self)@.next_window_id + 1) as usize,
                ..old(self)@
            }),
    {
        let id: usize = self.next_window_id;
        self.next_window_id = id + 1;
        id
    }

    /// Adds a window with a root view, which has the focus.
    pub fn add_window(&mut self, window_id: usize, root_view: usize)
        ensures
            final(self)@ == replaced(
                old(self)@,
                window_id,
                WindowView { root_view, focused_view_id: root_view, invalidation: None },
            ),
    {
        self.put(
            window_id,
            WindowState { root_view, focused_view_id: root_view, invalidation: None },
        );
    }

    /// Removes a window.
    pub fn remove_window(&mut self, window_id: usize)
        ensures
            final(self)@ == (WindowsView {
                windows: old(self)@.windows.remove(window_id),
                ..old(self)@
            }),
    {
        self.windows.remove(&window_id);
        assert(self@.windows =~= old(self)@.windows.remove(window_id));
    }

    /// The windows, in no order.
    pub fn window_ids(&self) -> (r: Vec<usize>)
        ensures
            r@.to_set() == self@.windows.dom(),
            no_repeats(r@),
    {
        let mut r: Vec<usize> = Vec::new();
        for id in iter: self.windows.keys()
            invariant
                r@ == iter.seq().unref().take(iter.index() as int),
        {
            r.push(*id);
        }
        assert(self@.windows.dom() =~= self.windows@.dom());
        assert(r@ =~= self.windows.keys().remaining().unref());
        r
    }

    /// The root view of a window.
    pub fn root_view_id(&self, window_id: usize) -> (r: Option<usize>)
        ensures
            r == (if self@.windows.dom().contains(window_id) {
                Some(self@.windows[window_id].root_view)
            } else {
                None
            }),
    {
        match self.windows.get(&window_id) {
            Some(w) => Some(w.root_view),
            None => None,
        }
    }

    /// The view of a window that has the focus.
    pub fn focused_view_id(&self, window_id: usize) -> (r: Option<usize>)
        ensures
            r == (if self@.windows.dom().contains(window_id) {
                Some(self@.windows[window_id].focused_view_id)
            } else {
                None
            }),
    {
        match self.windows.get(&window_id) {
            Some(w) => Some(w.focused_view_id),
            None => None,
        }
    }

    fn take(&mut self, window_id: usize) -> (r: Option<WindowState>)
        ensures
            r is Some <==> old(self)@.windows.dom().contains(window_id),
            r matches Some(w) ==> {
                &&& w@ == old(self)@.windows[window_id]
                &&& final(self)@ == WindowsView {
                    windows: old(self)@.windows.remove(window_id),
                    ..old(self)@
                }
            },
            r is None ==> final(self)@ == old(self)@,
    {
        let r: Option<WindowState> = self.windows.remove(&window_id);
        proof {
            if r is Some {
                assert(self@.windows =~= old(self)@.windows.remove(window_id));
            } else {
                assert(self@.windows =~= old(self)@.windows);
            }
        }
        r
    }

    fn put(&mut self, window_id: usize, window: WindowState)
        ensures
            final(self)@ == replaced(old(self)@, window_id, window@),
    {
        self.windows.insert(window_id, window);
        assert(self@.windows =~= old(self)@.windows.insert(window_id, window@));
    }

    /// Gives the focus to a view. The view that loses it is told first, then the one that gets it.
    pub fn focus(&mut self, window_id: usize, view_id: usize) -> (r: FocusChange)
        ensures
            (final(self)@, r) == focused(old(self)@, window_id, view_id),
    {
        match self.focused_view_id(window_id) {
            Some(current) => {
                if current == view_id {
                    return FocusChange::Unchanged;
                }
            },
            None => {
                return FocusChange::Moved { blurred: None };
            },
        }
        match self.take(window_id) {
            None => FocusChange::Moved { blurred: None },
            Some(w) => {
                let blurred: usize = w.focused_view_id;
                let changed = WindowState {
                    root_view: w.root_view,
                    focused_view_id: view_id,
                    invalidation: w.invalidation,
                };
                self.put(window_id, changed);
                assert(self@.windows =~= focused(old(self)@, window_id, view_id).0.windows);
                FocusChange::Moved { blurred: Some(blurred) }
            },
        }
    }

    /// A view was updated and has to be drawn again.
    pub fn view_updated(&mut self, window_id: usize, view_id: usize)
        ensures
            final(self)@ == (if old(self)@.windows.dom().contains(window_id) {
                replaced(
                    old(self)@,
                    window_id,
                    with_updated(old(self)@.windows[window_id], view_id),
                )
            } else {
                old(self)@
            }),
    {
        if let Some(w) = self.take(window_id) {
            let ghost before = w@;
            let mut invalidation: WindowInvalidation = match w.invalidation {
                Some(i) => i,
                None => WindowInvalidation::new(),
            };
            invalidation.mark_updated(view_id);
            let changed = WindowState {
                root_view: w.root_view,
                focused_view_id: w.focused_view_id,
                invalidation: Some(invalidation),
            };
            assert(changed@ =~= with_updated(before, view_id));
            self.put(window_id, changed);
            assert(self@.windows =~= old(self)@.windows.insert(
                window_id,
                with_updated(before, view_id),
            ));
        }
    }

    /// A view was removed. If it had the focus, tells the view that gets it: the root view.
    pub fn view_removed(&mut self, window_id: usize, view_id: usize) -> (r: Option<usize>)
        ensures
            old(self)@.windows.dom().contains(window_id) ==> {
                let w = old(self)@.windows[window_id];
                &&& final(self)@ == replaced(old(self)@, window_id, with_removed(w, view_id))
                &&& r == if w.focused_view_id == view_id {
                    Some(w.root_view)
                } else {
                    None
                }
            },
            !old(self)@.windows.dom().contains(window_id) ==> r is None && final(self)@ == old(
                self,
            )@,
    {
        match self.take(window_id) {
            None => None,
            Some(w) => {
                let ghost before = w@;
                let mut invalidation: WindowInvalidation = match w.invalidation {
                    Some(i) => i,
                    None => WindowInvalidation::new(),
                };
                invalidation.mark_removed(view_id);
                let root: usize = w.root_view;
                let lost: bool = w.focused_view_id == view_id;
                let changed = WindowState {
                    root_view: root,
                    focused_view_id: w.focused_view_id,
                    invalidation: Some(invalidation),
                };
                assert(changed@ =~= with_removed(before, view_id));
                self.put(window_id, changed);
                assert(self@.windows =~= old(self)@.windows.insert(
                    window_id,
                    with_removed(before, view_id),
                ));
                if lost {
                    Some(root)
                } else {
                    None
                }
            },
        }
    }

    /// A window was resized and has to be drawn again.
    pub fn window_resized(&mut self, window_id: usize)
        ensures
            final(self)@ == (if old(self)@.windows.dom().contains(window_id) {
                replaced(
                    old(self)@,
                    window_id,
                    WindowView {
                        invalidation: Some(invalidation_of(old(self)@.windows[window_id])),
                        ..old(self)@.windows[window_id]
                    },
                )
            } else {
                old(self)@
            }),
    {
        if let Some(w) = self.take(window_id) {
            let ghost before = w@;
            let invalidation: WindowInvalidation = match w.invalidation {
                Some(i) => i,
                None => WindowInvalidation::new(),
            };
            let changed = WindowState {
                root_view: w.root_view,
                focused_view_id: w.focused_view_id,
                invalidation: Some(invalidation),
            };
            self.put(window_id, changed);
            assert(self@.windows =~= old(self)@.windows.insert(
                window_id,
                WindowView { invalidation: Some(invalidation_of(before)), ..before },
            ));
        }
    }

    /// Hands over what changed in a window, which then counts as drawn.
    pub fn take_invalidation(&mut self, window_id: usize) -> (r: Option<WindowInvalidation>)
        ensures
            old(self)@.windows.dom().contains(window_id) ==> {
                let w = old(self)@.windows[window_id];
                &&& final(self)@ == replaced(
                    old(self)@,
                    window_id,
                    WindowView { invalidation: None, ..w },
                )
                &&& match w.invalidation {
                    Some(i) => r matches Some(taken) && taken@ == i,
                    None => r is None,
                }
            },
            !old(self)@.windows.dom().contains(window_id) ==> r is None && final(self)@ == old(
                self,
            )@,
    {
        match self.take(window_id) {
            None => None,
            Some(w) => {
                let ghost before = w@;
                let drawn = WindowState {
                    root_view: w.root_view,
                    focused_view_id: w.focused_view_id,
                    invalidation: None,
                };
                self.put(window_id, drawn);
                assert(self@.windows =~= old(self)@.windows.insert(
                    window_id,
                    WindowView { invalidation: None, ..before },
                ));
                w.invalidation
            },
        }
    }
}

impl Default for AppWindows {
    fn default() -> (r: Self)
        ensures
            r@ == (WindowsView { windows: Map::empty(), next_window_id: 0 }),
    {
        AppWindows::new()
    }
}

/// A view that has changed is noted in its window, beside those noted before; all else stays.
pub proof fn changed_views_are_noted(w: WindowView, view_id: usize, other: usize)
    ensures
        with_updated(w, view_id).invalidation matches Some(after) && after.updated.contains(view_id)
            && (w.invalidation matches Some(before) ==> after.removed == before.removed && (other
            != view_id ==> (after.updated.contains(other) <==> before.updated.contains(other)))) && (
        w.invalidation is None ==> after.removed.len() == 0 && (other != view_id
            ==> !after.updated.contains(other))),
        with_updated(w, view_id).root_view == w.root_view,
        with_updated(w, view_id).focused_view_id == w.focused_view_id,
{
}

/// A view that is gone is noted in its window, behind those noted before; all else stays.
pub proof fn removed_views_are_noted(w: WindowView, view_id: usize)
    ensures
        with_removed(w, view_id).invalidation matches Some(after) && after.removed.len() > 0
            && after.removed.last() == view_id && (w.invalidation matches Some(before)
            ==> after.removed.drop_last() == before.removed && after.updated == before.updated) && (
        w.invalidation is None ==> after.removed.len() == 1 && after.updated =~= Set::empty()),
        with_removed(w, view_id).root_view == w.root_view,
        with_removed(w, view_id).focused_view_id == w.focused_view_id,
{
}

/// Focus moves in its window alone, and tells which view has lost it.
pub proof fn focus_moves_in_its_window(
    w: WindowsView,
    window_id: usize,
    view_id: usize,
    other: usize,
)
    ensures
        !w.windows.dom().contains(window_id) ==> focused(w, window_id, view_id).0 == w,
        w.windows.dom().contains(window_id) ==> focused(
            w,
            window_id,
            view_id,
        ).0.windows[window_id].focused_view_id == view_id,
        w.windows.dom().contains(window_id) ==> focused(
            w,
            window_id,
            view_id,
        ).0.windows[window_id].root_view == w.windows[window_id].root_view,
        w.windows.dom().contains(window_id) ==> focused(
            w,
            window_id,
            view_id,
        ).0.windows[window_id].invalidation == w.windows[window_id].invalidation,
        focused(w, window_id, view_id).0.windows.dom() =~= w.windows.dom(),
        other != window_id && w.windows.dom().contains(other) ==> focused(
            w,
            window_id,
            view_id,
        ).0.windows[other] == w.windows[other],
        focused(w, window_id, view_id).1 is Unchanged <==> w.windows.dom().contains(window_id)
            && w.windows[window_id].focused_view_id == view_id,
        focused(w, window_id, view_id).1 matches FocusChange::Moved { blurred } ==> blurred == (
        if w.windows.dom().contains(window_id) {
            Some(w.windows[window_id].focused_view_id)
        } else {
            None
        }),
        focused(w, window_id, view_id).0.next_window_id == w.next_window_id,
{
}

/// Replacing a window leaves all others.
pub proof fn other_windows_stay(w: WindowsView, id: usize, window: WindowView, other: usize)
    ensures
        replaced(w, id, window).windows[id] == window,
        replaced(w, id, window).windows.dom() =~= w.windows.dom().insert(id),
        other != id ==> replaced(w, id, window).windows[other] == w.windows[other],
        replaced(w, id, window).next_window_id == w.next_window_id,
{
}

} // verus!
