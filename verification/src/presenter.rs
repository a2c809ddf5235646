//! What the mouse does to the regions of a window, and which views have to be drawn again.
//!
//! Whether a region contains the mouse is worked out by whoever knows the geometry.
use vstd::prelude::*;
use vstd::std_specs::iter::IteratorSpec;
use std::collections::HashMap;
use crate::app_windows::WindowInvalidation;
use crate::ref_counts::no_repeats;
use crate::text::{decimal, decimal_text};

verus! {

broadcast use vstd::std_specs::hash::group_hash_axioms;

/// A direction of layout.
#[derive(Clone, Copy, Debug, PartialEq, Eq, Structural)]
pub enum Axis {
    Horizontal,
    Vertical,
}

/// The other direction.
pub open spec fn inverted(axis: Axis) -> Axis {
    match axis {
        Axis::Horizontal => Axis::Vertical,
        Axis::Vertical => Axis::Horizontal,
    }
}

impl Axis {
    /// The other direction.
    pub fn invert(self) -> (r: Axis)
        ensures
            r == inverted(self),
    {
        match self {
            Axis::Horizontal => Axis::Vertical,
            Axis::Vertical => Axis::Horizontal,
        }
    }

    /// How the direction is written.
    pub fn name(self) -> (r: &'static str)
        ensures
            r@ == (match self {
                Axis::Horizontal => "horizontal"@,
                Axis::Vertical => "vertical"@,
            }),
    {
        match self {
            Axis::Horizontal => "horizontal",
            Axis::Vertical => "vertical",
        }
    }
}

/// The other direction of the other direction is the direction.
pub proof fn inverting_twice_is_nothing(axis: Axis)
    ensures
        inverted(inverted(axis)) == axis,
        inverted(axis) != axis,
{
}

/// A region that takes part in mouse events. The regions of a window stand in the order in which
/// they are painted.
#[derive(Clone, Copy, Debug, PartialEq, Eq, Structural)]
pub struct MouseRegion {
    pub id: Option<u64>,
    pub depth: usize,
    pub contains_mouse: bool,
}

/// A region that the mouse entered or left.
#[derive(Clone, Copy, Debug, PartialEq, Eq, Structural)]
pub struct HoverChange {
    pub region: usize,
    pub started: bool,
}

/// The depth of the topmost region under the mouse.
pub open spec fn top_depth(regions: Seq<MouseRegion>) -> Option<usize>
    decreases regions.len(),
{
    if regions.len() == 0 {
        None
    } else if regions.last().contains_mouse {
        Some(regions.last().depth)
    } else {
        top_depth(regions.drop_last())
    }
}

/// Whether a region counts as hovered: it is under the mouse, and as deep as the topmost one.
pub open spec fn is_hovered(region: MouseRegion, top: Option<usize>) -> bool {
    region.contains_mouse && top == Some(region.depth)
}

/// What a region does to the set of the hovered ones.
pub open spec fn hover_step(
    region: MouseRegion,
    index: usize,
    top: Option<usize>,
    hovered: Set<u64>,
) -> (Set<u64>, Seq<HoverChange>) {
    match region.id {
        None => (hovered, Seq::empty()),
        Some(id) => if is_hovered(region, top) {
            if hovered.contains(id) {
                (hovered, Seq::empty())
            } else {
                (hovered.insert(id), seq![HoverChange { region: index, started: true }])
            }
        } else if hovered.contains(id) {
            (hovered.remove(id), seq![HoverChange { region: index, started: false }])
        } else {
            (hovered, Seq::empty())
        },
    }
}

/// What all regions do, the topmost first.
pub open spec fn hover_after(
    regions: Seq<MouseRegion>,
    top: Option<usize>,
    hovered: Set<u64>,
) -> (Set<u64>, Seq<HoverChange>)
    decreases regions.len(),
{
    if regions.len() == 0 {
        (hovered, Seq::empty())
    } else {
        let first = hover_step(regions.last(), (regions.len() - 1) as usize, top, hovered);
        let rest = hover_after(regions.drop_last(), top, first.0);
        (rest.0, first.1 + rest.1)
    }
}

/// Whether no two regions have the same number.
pub open spec fn ids_differ(regions: Seq<MouseRegion>) -> bool {
    forall|i: int, j: int|
        0 <= i < j < regions.len() && (#[trigger] regions[i]).id is Some ==> regions[i].id != (
        #[trigger] regions[j]).id
}

/// Whether a set holds exactly those regions that are hovered.
pub open spec fn hover_is_right(
    regions: Seq<MouseRegion>,
    top: Option<usize>,
    hovered: Set<u64>,
) -> bool {
    forall|i: int|
        0 <= i < regions.len() && (#[trigger] regions[i]).id is Some ==> hovered.contains(
            regions[i].id->0,
        ) == is_hovered(regions[i], top)
}

proof fn lemma_others_stay(regions: Seq<MouseRegion>, top: Option<usize>, hovered: Set<u64>, id: u64)
    requires
        forall|i: int| 0 <= i < regions.len() ==> (#[trigger] regions[i]).id != Some(id),
    ensures
        hover_after(regions, top, hovered).0.contains(id) == hovered.contains(id),
    decreases regions.len(),
{
    if regions.len() > 0 {
        let first = hover_step(regions.last(), (regions.len() - 1) as usize, top, hovered);
        lemma_others_stay(regions.drop_last(), top, first.0, id);
    }
}

/// After the mouse has moved, exactly the hovered regions are in the set.
pub proof fn hover_becomes_right(regions: Seq<MouseRegion>, top: Option<usize>, hovered: Set<u64>)
    requires
        ids_differ(regions),
    ensures
        hover_is_right(regions, top, hover_after(regions, top, hovered).0),
    decreases regions.len(),
{
    if regions.len() > 0 {
        let init = regions.drop_last();
        let last = regions.last();
        let first = hover_step(last, (regions.len() - 1) as usize, top, hovered);
        hover_becomes_right(init, top, first.0);
        if last.id is Some {
            assert forall|i: int| 0 <= i < init.len() implies (#[trigger] init[i]).id != last.id by {
                assert(regions[i].id is Some ==> regions[i].id != regions[regions.len() - 1].id);
            }
            lemma_others_stay(init, top, first.0, last.id->0);
        }
        let end = hover_after(regions, top, hovered).0;
        assert forall|i: int|
            0 <= i < regions.len() && (#[trigger] regions[i]).id is Some implies end.contains(
            regions[i].id->0,
        ) == is_hovered(regions[i], top) by {
            if i < init.len() {
                assert(init[i] == regions[i]);
            }
        }
    }
}

/// A mouse that moves within the same regions enters and leaves none of them.
pub proof fn hover_is_told_once(regions: Seq<MouseRegion>, top: Option<usize>, hovered: Set<u64>)
    requires
        hover_is_right(regions, top, hovered),
    ensures
        hover_after(regions, top, hovered) == (hovered, Seq::<HoverChange>::empty()),
    decreases regions.len(),
{
    if regions.len() > 0 {
        let init = regions.drop_last();
        assert(regions[regions.len() - 1] == regions.last());
        assert forall|i: int|
            0 <= i < init.len() && (#[trigger] init[i]).id is Some implies hovered.contains(
            init[i].id->0,
        ) == is_hovered(init[i], top) by {
            assert(init[i] == regions[i]);
        }
        hover_is_told_once(init, top, hovered);
        assert(Seq::<HoverChange>::empty() + Seq::<HoverChange>::empty() =~= Seq::empty());
    }
}

/// The places of the flags that have a value, the last first.
pub open spec fn places_reversed(flags: Seq<bool>, wanted: bool) -> Seq<usize>
    decreases flags.len(),
{
    if flags.len() == 0 {
        Seq::empty()
    } else if flags.last() == wanted {
        seq![(flags.len() - 1) as usize] + places_reversed(flags.drop_last(), wanted)
    } else {
        places_reversed(flags.drop_last(), wanted)
    }
}

/// The regions that take an event, the topmost first: those that contain the mouse if the event is
/// a local one, otherwise the others.
pub fn make_events(contains: &Vec<bool>, local: bool) -> (r: Vec<usize>)
    ensures
        r@ == places_reversed(contains@, local),
{
    let mut r: Vec<usize> = Vec::new();
    let ghost all = contains@;
    let mut i: usize = contains.len();
    assert(all.take(i as int) =~= all);
    assert(r@ + places_reversed(all, local) =~= places_reversed(all, local));
    while i > 0
        invariant
            i <= contains.len(),
            all == contains@,
            places_reversed(all, local) == r@ + places_reversed(all.take(i as int), local),
        decreases i,
    {
        i -= 1;
        assert(all.take(i + 1).drop_last() =~= all.take(i as int));
        let ghost before = r@;
        let ghost rest = places_reversed(all.take(i as int), local);
        if contains[i] == local {
            r.push(i);
            assert(before + (seq![i] + rest) =~= r@ + rest);
        }
    }
    assert(r@ + places_reversed(all.take(0), local) =~= r@);
    r
}

/// Every region takes an event either as a local one or as one from outside.
pub proof fn each_region_takes_one(contains: Seq<bool>, i: int)
    requires
        0 <= i < contains.len(),
        contains.len() <= usize::MAX,
    ensures
        places_reversed(contains, true).contains(i as usize) == contains[i],
        places_reversed(contains, false).contains(i as usize) == !contains[i],
    decreases contains.len(),
{
    lemma_place(contains, true, i);
    lemma_place(contains, false, i);
}

proof fn lemma_place(flags: Seq<bool>, wanted: bool, i: int)
    requires
        0 <= i <= usize::MAX,
        flags.len() <= usize::MAX,
    ensures
        places_reversed(flags, wanted).contains(i as usize) == (i < flags.len() && flags[i]
            == wanted),
    decreases flags.len(),
{
    if flags.len() > 0 {
        let rest = places_reversed(flags.drop_last(), wanted);
        let n = flags.len() - 1;
        lemma_place(flags.drop_last(), wanted, i);
        if flags.last() == wanted {
            let all = seq![n as usize] + rest;
            assert(all[0] == n as usize);
            if rest.contains(i as usize) {
                let k = choose|k: int| 0 <= k < rest.len() && rest[k] == i as usize;
                assert(all[k + 1] == i as usize);
            }
            if all.contains(i as usize) && i != n {
                let k = choose|k: int| 0 <= k < all.len() && all[k] == i as usize;
                assert(rest[k - 1] == i as usize);
            }
        }
    }
}

/// The topmost region that contains the mouse: its cursor is shown, or the arrow if there is none.
pub fn topmost(contains: &Vec<bool>) -> (r: Option<usize>)
    ensures
        match r {
            Some(i) => {
                &&& i < contains@.len()
                &&& contains@[i as int]
                &&& forall|k: int| i < k < contains@.len() ==> !contains@[k]
            },
            None => forall|k: int| 0 <= k < contains@.len() ==> !contains@[k],
        },
{
    let mut i: usize = contains.len();
    while i > 0
        invariant
            i <= contains.len(),
            forall|k: int| i <= k < contains@.len() ==> !contains@[k],
        decreases i,
    {
        i -= 1;
        if contains[i] {
            return Some(i);
        }
    }
    None
}

/// What happened to the mouse.
#[derive(Clone, Copy, Debug, PartialEq, Eq, Structural)]
pub enum MouseInput {
    Down,
    Up,
    Moved { pressed: bool },
    Other,
}

/// An event that regions take.
#[derive(Clone, Copy, Debug, PartialEq, Eq, Structural)]
pub enum RegionEvent {
    Down,
    DownOut,
    Up,
    UpOut,
    Click,
    Drag,
    Move,
    Hover,
}

/// The region events for what happened, in the order in which they are fired. A button comes up
/// before it clicks.
pub open spec fn region_events_for(input: MouseInput) -> Seq<RegionEvent> {
    match input {
        MouseInput::Down => seq![RegionEvent::Down, RegionEvent::DownOut],
        MouseInput::Up => seq![RegionEvent::Up, RegionEvent::UpOut, RegionEvent::Click],
        MouseInput::Moved { pressed: true } =>
            seq![RegionEvent::Drag, RegionEvent::Move, RegionEvent::Hover],
        MouseInput::Moved { pressed: false } => seq![RegionEvent::Move, RegionEvent::Hover],
        MouseInput::Other => Seq::empty(),
    }
}

/// A button of the mouse.
#[derive(Clone, Copy, Debug, PartialEq, Eq, Structural)]
pub enum MouseButton {
    Left,
    Right,
    Middle,
    NavigateBack,
    NavigateForward,
}

/// Which views of a window are rendered, and what the mouse does in it. Regions are known by what
/// the window calls them.
pub struct Presenter {
    rendered: HashMap<usize, ()>,
    hovered: HashMap<u64, ()>,
    clicked_regions: Vec<u64>,
    clicked_button: Option<MouseButton>,
}

/// The meaning of a presenter.
#[verifier::ext_equal]
pub struct PresenterView {
    pub rendered: Set<usize>,
    pub hovered: Set<u64>,
    pub clicked_regions: Seq<u64>,
    pub clicked_button: Option<MouseButton>,
}

impl View for Presenter {
    type V = PresenterView;

    closed spec fn view(&self) -> PresenterView {
        PresenterView {
            rendered: self.rendered@.dom(),
            hovered: self.hovered@.dom(),
            clicked_regions: self.clicked_regions@,
            clicked_button: self.clicked_button,
        }
    }
}

/// The members of a list that are flagged.
pub open spec fn flagged(list: Seq<u64>, flags: Seq<bool>) -> Seq<u64>
    decreases list.len(),
{
    if list.len() == 0 {
        Seq::empty()
    } else if flags[list.len() - 1] {
        flagged(list.drop_last(), flags).push(list.last())
    } else {
        flagged(list.drop_last(), flags)
    }
}

/// The members of a list at some places.
pub open spec fn at_places(list: Seq<u64>, places: Seq<usize>) -> Seq<u64> {
    places.map_values(|i: usize| list[i as int])
}

fn listed(list: &Vec<usize>, x: usize) -> (r: bool)
    ensures
        r == list@.contains(x),
{
    let mut i: usize = 0;
    while i < list.len()
        invariant
            i <= list.len(),
            forall|k: int| 0 <= k < i ==> list@[k] != x,
        decreases list.len() - i,
    {
        if list[i] == x {
            assert(list@[i as int] == x);
            return true;
        }
        i += 1;
    }
    false
}

impl Presenter {
    /// Nothing is rendered, and the mouse has done nothing.
    pub fn new() -> (r: Presenter)
        ensures
            r@ == (PresenterView {
                rendered: Set::empty(),
                hovered: Set::empty(),
                clicked_regions: Seq::empty(),
                clicked_button: None,
            }),
    {
        let r = Presenter {
            rendered: HashMap::new(),
            hovered: HashMap::new(),
            clicked_regions: Vec::new(),
            clicked_button: None,
        };
        assert(r@.rendered =~= Set::empty());
        assert(r@.hovered =~= Set::empty());
        r
    }

    /// Whether a view is rendered.
    pub fn is_rendered(&self, view_id: usize) -> (r: bool)
        ensures
            r == self@.rendered.contains(view_id),
    {
        self.rendered.contains_key(&view_id)
    }

    /// Takes in what changed: views that were removed are forgotten, and those that were updated and
    /// not removed have to be rendered. Tells the latter.
    pub fn invalidate(&mut self, invalidation: &WindowInvalidation) -> (r: Vec<usize>)
        ensures
            r@.to_set() == invalidation@.updated.difference(invalidation@.removed.to_set()),
            final(self)@ == (PresenterView {
                rendered: old(self)@.rendered.difference(
                    invalidation@.removed.to_set(),
                ).union(r@.to_set()),
                ..old(self)@
            }),
    {
        let removed: &Vec<usize> = invalidation.removed();
        let updated: &Vec<usize> = invalidation.updated();
        let mut i: usize = 0;
        let ghost gone = removed@;
        assert(self@.rendered =~= old(self)@.rendered.difference(gone.take(0).to_set()));
        while i < removed.len()
            invariant
                i <= removed.len(),
                gone == removed@,
                self@ == (PresenterView {
                    rendered: old(self)@.rendered.difference(gone.take(i as int).to_set()),
                    ..old(self)@
                }),
            decreases removed.len() - i,
        {
            let id: usize = removed[i];
            let ghost before = self@.rendered;
            self.rendered.remove(&id);
            assert(self@.rendered =~= before.remove(id));
            proof {
                assert(gone.take(i + 1) =~= gone.take(i as int).push(id));
                lemma_set_of_push(gone.take(i as int), id);
                assert(self@.rendered =~= old(self)@.rendered.difference(
                    gone.take(i + 1).to_set(),
                ));
            }
            i += 1;
        }
        assert(gone.take(i as int) =~= gone);
        let ghost kept = self@.rendered;
        let ghost wanted = updated@;
        let mut r: Vec<usize> = Vec::new();
        let mut j: usize = 0;
        assert(r@.to_set() =~= wanted.take(0).to_set().difference(gone.to_set()));
        assert(kept.union(r@.to_set()) =~= kept);
        while j < updated.len()
            invariant
                j <= updated.len(),
                wanted == updated@,
                gone == removed@,
                r@.to_set() == wanted.take(j as int).to_set().difference(gone.to_set()),
                self@ == (PresenterView { rendered: kept.union(r@.to_set()), ..old(self)@ }),
            decreases updated.len() - j,
        {
            let id: usize = updated[j];
            proof {
                assert(wanted.take(j + 1) =~= wanted.take(j as int).push(id));
                lemma_set_of_push(wanted.take(j as int), id);
            }
            if !listed(removed, id) {
                let ghost before = self@.rendered;
                let ghost listed_before = r@;
                r.push(id);
                self.rendered.insert(id, ());
                assert(self@.rendered =~= before.insert(id));
                proof {
                    lemma_set_of_push(listed_before, id);
                    assert(self@.rendered =~= kept.union(r@.to_set()));
                }
            }
            assert(r@.to_set() =~= wanted.take(j + 1).to_set().difference(gone.to_set()));
            j += 1;
        }
        assert(wanted.take(j as int) =~= wanted);
        r
    }

    /// When everything is rendered again, so are the views that are rendered and were not updated.
    pub fn also_refreshed(&self, invalidation: &WindowInvalidation, view_id: usize) -> (r: bool)
        ensures
            r == (self@.rendered.contains(view_id) && !invalidation@.updated.contains(view_id)),
    {
        self.rendered.contains_key(&view_id) && !invalidation.is_updated(view_id)
    }

    /// The mouse moved: tells the regions that it entered or left, the topmost first. Of regions
    /// that overlap, only those as deep as the topmost one count.
    pub fn make_hover_events(&mut self, regions: &Vec<MouseRegion>) -> (r: Vec<HoverChange>)
        ensures
            ({
                let end = hover_after(regions@, top_depth(regions@), old(self)@.hovered);
                &&& r@ == end.1
                &&& final(self)@ == PresenterView { hovered: end.0, ..old(self)@ }
            }),
    {
        let ghost all = regions@;
        let mut top: Option<usize> = None;
        let mut i: usize = regions.len();
        assert(all.take(i as int) =~= all);
        while i > 0 && top.is_none()
            invariant
                i <= regions.len(),
                all == regions@,
                top is None ==> top_depth(all) == top_depth(all.take(i as int)),
                top is Some ==> top == top_depth(all),
            decreases i,
        {
            i -= 1;
            assert(all.take(i + 1).drop_last() =~= all.take(i as int));
            if regions[i].contains_mouse {
                top = Some(regions[i].depth);
            }
        }
        assert(top == top_depth(all));
        let ghost end = hover_after(all, top, self@.hovered);
        let mut r: Vec<HoverChange> = Vec::new();
        let mut k: usize = regions.len();
        assert(all.take(k as int) =~= all);
        assert(r@ + end.1 =~= end.1);
        while k > 0
            invariant
                k <= regions.len(),
                all == regions@,
                end == hover_after(all, top, old(self)@.hovered),
                self@ == (PresenterView { hovered: self@.hovered, ..old(self)@ }),
                ({
                    let rest = hover_after(all.take(k as int), top, self@.hovered);
                    end.0 == rest.0 && end.1 == r@ + rest.1
                }),
            decreases k,
        {
            k -= 1;
            let region: MouseRegion = regions[k];
            let ghost before = self@.hovered;
            let ghost told = r@;
            let ghost first = hover_step(region, k, top, before);
            let ghost rest = hover_after(all.take(k as int), top, first.0);
            assert(all.take(k + 1).drop_last() =~= all.take(k as int));
            assert(all.take(k + 1).last() == region);
            if let Some(id) = region.id {
                let under: bool = region.contains_mouse && match top {
                    Some(depth) => depth == region.depth,
                    None => false,
                };
                let known: bool = self.hovered.contains_key(&id);
                if under && !known {
                    self.hovered.insert(id, ());
                    assert(self@.hovered =~= before.insert(id));
                    r.push(HoverChange { region: k, started: true });
                } else if !under && known {
                    self.hovered.remove(&id);
                    assert(self@.hovered =~= before.remove(id));
                    r.push(HoverChange { region: k, started: false });
                }
            }
            assert(self@.hovered == first.0);
            assert(r@ =~= told + first.1);
            assert(told + (first.1 + rest.1) =~= r@ + rest.1);
        }
        assert(r@ + Seq::<HoverChange>::empty() =~= r@);
        r
    }

    /// A button went down: remembers the regions under the mouse, in the order in which they are
    /// painted, as it may come up somewhere else.
    pub fn mouse_down(&mut self, regions: &Vec<u64>, contains: &Vec<bool>, button: MouseButton)
        requires
            regions.len() == contains.len(),
        ensures
            final(self)@ == (PresenterView {
                clicked_regions: flagged(regions@, contains@),
                clicked_button: Some(button),
                ..old(self)@
            }),
    {
        let mut clicked: Vec<u64> = Vec::new();
        let ghost all = regions@;
        let mut i: usize = 0;
        assert(all.take(0) =~= Seq::empty());
        while i < regions.len()
            invariant
                i <= regions.len() == contains.len(),
                all == regions@,
                clicked@ == flagged(all.take(i as int), contains@),
            decreases regions.len() - i,
        {
            assert(all.take(i + 1).drop_last() =~= all.take(i as int));
            if contains[i] {
                clicked.push(regions[i]);
            }
            i += 1;
        }
        assert(all.take(i as int) =~= all);
        self.clicked_regions = clicked;
        self.clicked_button = Some(button);
    }

    /// The button that is down, and the regions that were under the mouse.
    pub fn clicked(&self) -> (r: (&Vec<u64>, Option<MouseButton>))
        ensures
            r.0@ == self@.clicked_regions,
            r.1 == self@.clicked_button,
    {
        (&self.clicked_regions, self.clicked_button)
    }

    /// The button came up: those of the remembered regions are clicked that still contain the mouse,
    /// the topmost first. Nothing is remembered afterwards.
    pub fn make_click_events(&mut self, still_contains: &Vec<bool>) -> (r: Vec<u64>)
        requires
            still_contains.len() == old(self)@.clicked_regions.len(),
        ensures
            r@ == at_places(
                old(self)@.clicked_regions,
                places_reversed(still_contains@, true),
            ),
            final(self)@ == (PresenterView {
                clicked_regions: Seq::empty(),
                clicked_button: None,
                ..old(self)@
            }),
    {
        let places: Vec<usize> = make_events(still_contains, true);
        let mut regions: Vec<u64> = Vec::new();
        std::mem::swap(&mut regions, &mut self.clicked_regions);
        self.clicked_button = None;
        let mut r: Vec<u64> = Vec::new();
        let mut i: usize = 0;
        while i < places.len()
            invariant
                i <= places.len(),
                places@ == places_reversed(still_contains@, true),
                regions@ == old(self)@.clicked_regions,
                still_contains.len() == regions@.len(),
                r@ == at_places(regions@, places@.take(i as int)),
            decreases places.len() - i,
        {
            proof {
                lemma_places_within(still_contains@, true, i as int);
                assert(at_places(regions@, places@.take(i + 1)) =~= r@.push(
                    regions@[places@[i as int] as int],
                ));
            }
            r.push(regions[places[i]]);
            i += 1;
        }
        assert(places@.take(i as int) =~= places@);
        r
    }
}

proof fn lemma_places_within(flags: Seq<bool>, wanted: bool, k: int)
    requires
        0 <= k < places_reversed(flags, wanted).len(),
        flags.len() <= usize::MAX,
    ensures
        places_reversed(flags, wanted)[k] < flags.len(),
    decreases flags.len(),
{
    if flags.len() > 0 {
        let init = flags.drop_last();
        if flags.last() == wanted {
            if k > 0 {
                lemma_places_within(init, wanted, k - 1);
            }
        } else {
            lemma_places_within(init, wanted, k);
        }
    }
}

proof fn lemma_set_of_push(list: Seq<usize>, x: usize)
    ensures
        list.push(x).to_set() == list.to_set().insert(x),
{
    assert forall|y: usize| #[trigger]
        list.push(x).to_set().contains(y) <==> list.to_set().insert(x).contains(y) by {
        if list.contains(y) {
            let i = choose|i: int| 0 <= i < list.len() && list[i] == y;
            assert(list.push(x)[i] == y);
        }
        assert(list.push(x)[list.len() as int] == x);
        if list.push(x).contains(y) {
            let i = choose|i: int| 0 <= i < list.push(x).len() && list.push(x)[i] == y;
            if i < list.len() {
                assert(list[i] == y);
            }
        }
    }
    assert(list.push(x).to_set() =~= list.to_set().insert(x));
}

impl Default for Presenter {
    fn default() -> (r: Self)
        ensures
            r@.rendered == Set::<usize>::empty(),
            r@.hovered == Set::<u64>::empty(),
            r@.clicked_regions == Seq::<u64>::empty(),
            r@.clicked_button is None,
    {
        Presenter::new()
    }
}

/// A region event with the regions that take it, in the order in which they are called. Of a hover
/// event, `entered` tells for each of them whether the mouse came in or went out.
pub struct EventGroup {
    pub event: RegionEvent,
    pub regions: Vec<u64>,
    pub entered: Vec<bool>,
}

/// The meaning of such a group.
#[verifier::ext_equal]
pub struct EventGroupView {
    pub event: RegionEvent,
    pub regions: Seq<u64>,
    pub entered: Seq<bool>,
}

impl View for EventGroup {
    type V = EventGroupView;

    open spec fn view(&self) -> EventGroupView {
        EventGroupView {
            event: self.event,
            regions: self.regions@,
            entered: self.entered@,
        }
    }
}

/// The meaning of a list of groups.
pub open spec fn group_views(groups: Seq<EventGroup>) -> Seq<EventGroupView> {
    groups.map_values(|g: EventGroup| g@)
}

/// Which regions contain the mouse.
pub open spec fn mouse_flags(regions: Seq<MouseRegion>) -> Seq<bool> {
    regions.map_values(|r: MouseRegion| r.contains_mouse)
}

/// The group of an event that goes to the regions under the mouse, or to all others.
pub open spec fn plain_group(
    event: RegionEvent,
    names: Seq<u64>,
    regions: Seq<MouseRegion>,
    local: bool,
) -> EventGroupView {
    EventGroupView {
        event,
        regions: at_places(names, places_reversed(mouse_flags(regions), local)),
        entered: Seq::empty(),
    }
}

/// The group of the regions that the mouse entered or left.
pub open spec fn hover_group(names: Seq<u64>, changes: Seq<HoverChange>) -> EventGroupView {
    EventGroupView {
        event: RegionEvent::Hover,
        regions: changes.map_values(|c: HoverChange| names[c.region as int]),
        entered: changes.map_values(|c: HoverChange| c.started),
    }
}

/// The groups of events for what happened to the mouse.
pub open spec fn groups_for(
    p: PresenterView,
    input: MouseInput,
    names: Seq<u64>,
    regions: Seq<MouseRegion>,
    still_contains: Seq<bool>,
) -> Seq<EventGroupView> {
    match input {
        MouseInput::Down => seq![
            plain_group(RegionEvent::Down, names, regions, true),
            plain_group(RegionEvent::DownOut, names, regions, false),
        ],
        MouseInput::Up => seq![
            plain_group(RegionEvent::Up, names, regions, true),
            plain_group(RegionEvent::UpOut, names, regions, false),
            EventGroupView {
                event: RegionEvent::Click,
                regions: at_places(p.clicked_regions, places_reversed(still_contains, true)),
                entered: Seq::empty(),
            },
        ],
        MouseInput::Moved { pressed } => {
            let hover = hover_group(
                names,
                hover_after(regions, top_depth(regions), p.hovered).1,
            );
            let moved = plain_group(RegionEvent::Move, names, regions, true);
            if pressed {
                seq![plain_group(RegionEvent::Drag, names, regions, true), moved, hover]
            } else {
                seq![moved, hover]
            }
        },
        MouseInput::Other => Seq::empty(),
    }
}

/// The presenter after what happened to the mouse.
pub open spec fn presenter_after(
    p: PresenterView,
    input: MouseInput,
    button: MouseButton,
    names: Seq<u64>,
    regions: Seq<MouseRegion>,
    contains_event: Seq<bool>,
) -> PresenterView {
    match input {
        MouseInput::Down => PresenterView {
            clicked_regions: flagged(names, contains_event),
            clicked_button: Some(button),
            ..p
        },
        MouseInput::Up => PresenterView {
            clicked_regions: Seq::empty(),
            clicked_button: None,
            ..p
        },
        MouseInput::Moved { .. } => PresenterView {
            hovered: hover_after(regions, top_depth(regions), p.hovered).0,
            ..p
        },
        MouseInput::Other => p,
    }
}

/// The groups come in the order of the region events.
pub proof fn groups_come_in_order(
    p: PresenterView,
    input: MouseInput,
    names: Seq<u64>,
    regions: Seq<MouseRegion>,
    still_contains: Seq<bool>,
)
    ensures
        groups_for(p, input, names, regions, still_contains).map_values(
            |g: EventGroupView| g.event,
        ) == region_events_for(input),
{
    assert(groups_for(p, input, names, regions, still_contains).map_values(
        |g: EventGroupView| g.event,
    ) =~= region_events_for(input));
}

proof fn lemma_members_at(list: Seq<u64>, flags: Seq<bool>, wanted: bool, name: u64)
    requires
        list.len() == flags.len(),
        flags.len() <= usize::MAX,
    ensures
        at_places(list, places_reversed(flags, wanted)).contains(name) <==> exists|i: int|
            0 <= i < list.len() && #[trigger] list[i] == name && flags[i] == wanted,
{
    let places = places_reversed(flags, wanted);
    let chosen = at_places(list, places);
    if chosen.contains(name) {
        let k = choose|k: int| 0 <= k < chosen.len() && chosen[k] == name;
        lemma_places_within(flags, wanted, k);
        let i = places[k] as int;
        assert(places.contains(i as usize));
        lemma_place(flags, wanted, i);
        assert(list[i] == name && flags[i] == wanted);
    }
    if exists|i: int| 0 <= i < list.len() && #[trigger] list[i] == name && flags[i] == wanted {
        let i = choose|i: int|
            0 <= i < list.len() && #[trigger] list[i] == name && flags[i] == wanted;
        lemma_place(flags, wanted, i);
        let k = choose|k: int| 0 <= k < places.len() && places[k] == i as usize;
        assert(chosen[k] == name);
    }
}

proof fn lemma_places_descend(flags: Seq<bool>, wanted: bool, j: int, k: int)
    requires
        flags.len() <= usize::MAX,
        0 <= j < k < places_reversed(flags, wanted).len(),
    ensures
        places_reversed(flags, wanted)[j] > places_reversed(flags, wanted)[k],
    decreases flags.len(),
{
    if flags.len() > 0 {
        let init = flags.drop_last();
        if flags.last() == wanted {
            if j > 0 {
                lemma_places_descend(init, wanted, j - 1, k - 1);
            } else {
                lemma_places_within(init, wanted, k - 1);
            }
        } else {
            lemma_places_descend(init, wanted, j, k);
        }
    }
}

/// Whether the mouse is in a region of this name.
pub open spec fn under_mouse(names: Seq<u64>, regions: Seq<MouseRegion>, name: u64) -> bool {
    exists|i: int|
        0 <= i < names.len() && #[trigger] names[i] == name && regions[i].contains_mouse
}

/// Whether the mouse is outside of a region of this name.
pub open spec fn beside_mouse(names: Seq<u64>, regions: Seq<MouseRegion>, name: u64) -> bool {
    exists|i: int|
        0 <= i < names.len() && #[trigger] names[i] == name && !regions[i].contains_mouse
}

/// What happens at the mouse goes to the regions that contain it, all of them and no others: that a
/// button goes down or comes up, that the mouse is dragged, and that it moves. That a button goes down
/// or comes up outside goes to exactly the others.
pub proof fn events_go_to_regions_at_the_mouse(
    p: PresenterView,
    input: MouseInput,
    names: Seq<u64>,
    regions: Seq<MouseRegion>,
    still_contains: Seq<bool>,
    g: int,
    name: u64,
)
    requires
        names.len() == regions.len(),
        regions.len() <= usize::MAX,
        0 <= g < groups_for(p, input, names, regions, still_contains).len(),
    ensures
        ({
            let group = groups_for(p, input, names, regions, still_contains)[g];
            &&& group.event is Down || group.event is Up || group.event is Drag
                || group.event is Move ==> (group.regions.contains(name) <==> under_mouse(
                names,
                regions,
                name,
            ))
            &&& group.event is DownOut || group.event is UpOut ==> (group.regions.contains(name)
                <==> beside_mouse(names, regions, name))
        }),
{
    let flags = mouse_flags(regions);
    lemma_members_at(names, flags, true, name);
    lemma_members_at(names, flags, false, name);
    if under_mouse(names, regions, name) {
        let i = choose|i: int|
            0 <= i < names.len() && #[trigger] names[i] == name && regions[i].contains_mouse;
        assert(names[i] == name && flags[i] == true);
    }
    if beside_mouse(names, regions, name) {
        let i = choose|i: int|
            0 <= i < names.len() && #[trigger] names[i] == name && !regions[i].contains_mouse;
        assert(names[i] == name && flags[i] == false);
    }
    if exists|i: int| 0 <= i < names.len() && #[trigger] names[i] == name && flags[i] == true {
        let i = choose|i: int|
            0 <= i < names.len() && #[trigger] names[i] == name && flags[i] == true;
        assert(names[i] == name && regions[i].contains_mouse);
    }
    if exists|i: int| 0 <= i < names.len() && #[trigger] names[i] == name && flags[i] == false {
        let i = choose|i: int|
            0 <= i < names.len() && #[trigger] names[i] == name && flags[i] == false;
        assert(names[i] == name && !regions[i].contains_mouse);
    }
}

/// A region that is painted later is called earlier: the regions of a group stand in the opposite
/// order of the names, and none more often than its name.
pub proof fn topmost_regions_come_first(
    p: PresenterView,
    input: MouseInput,
    names: Seq<u64>,
    regions: Seq<MouseRegion>,
    still_contains: Seq<bool>,
    g: int,
    j: int,
    k: int,
) -> (places: (int, int))
    requires
        names.len() == regions.len(),
        regions.len() <= usize::MAX,
        0 <= g < groups_for(p, input, names, regions, still_contains).len(),
        ({
            let group = groups_for(p, input, names, regions, still_contains)[g];
            !(group.event is Click) && !(group.event is Hover) && 0 <= j < k < group.regions.len()
        }),
    ensures
        0 <= places.1 < places.0 < names.len(),
        groups_for(p, input, names, regions, still_contains)[g].regions[j] == names[places.0],
        groups_for(p, input, names, regions, still_contains)[g].regions[k] == names[places.1],
{
    let flags = mouse_flags(regions);
    let group = groups_for(p, input, names, regions, still_contains)[g];
    let inside = places_reversed(flags, true);
    let outside = places_reversed(flags, false);
    if group.event is DownOut || group.event is UpOut {
        lemma_places_descend(flags, false, j, k);
        lemma_places_within(flags, false, j);
        (outside[j] as int, outside[k] as int)
    } else {
        lemma_places_descend(flags, true, j, k);
        lemma_places_within(flags, true, j);
        (inside[j] as int, inside[k] as int)
    }
}

proof fn lemma_flagged(list: Seq<u64>, flags: Seq<bool>, name: u64)
    requires
        list.len() <= flags.len(),
    ensures
        flagged(list, flags).contains(name) <==> exists|i: int|
            0 <= i < list.len() && #[trigger] list[i] == name && flags[i],
    decreases list.len(),
{
    if list.len() > 0 {
        let init = list.drop_last();
        let rest = flagged(init, flags);
        lemma_flagged(init, flags, name);
        let n = list.len() - 1;
        if rest.contains(name) {
            let i = choose|i: int| 0 <= i < init.len() && #[trigger] init[i] == name && flags[i];
            assert(list[i] == name && flags[i]);
        }
        if exists|i: int| 0 <= i < list.len() && #[trigger] list[i] == name && flags[i] {
            let i = choose|i: int| 0 <= i < list.len() && #[trigger] list[i] == name && flags[i];
            if i < n {
                assert(init[i] == name && flags[i]);
            }
        }
        if flags[n] {
            assert(rest.push(list[n])[rest.len() as int] == list[n]);
            if rest.contains(name) {
                let k = choose|k: int| 0 <= k < rest.len() && rest[k] == name;
                assert(rest.push(list[n])[k] == name);
            }
            if rest.push(list[n]).contains(name) {
                let k = choose|k: int|
                    0 <= k < rest.push(list[n]).len() && rest.push(list[n])[k] == name;
                if k < rest.len() {
                    assert(rest[k] == name);
                } else {
                    assert(list[n] == name && flags[n]);
                }
            }
        }
    }
}

/// A click goes to the regions in which the button went down and that still contain the mouse when it
/// comes up, to all of them and to no others. Which regions the button went down in is decided by where
/// the mouse is then; when it has come up, none is remembered.
pub proof fn clicks_go_down_and_up_in_a_region(
    p: PresenterView,
    button: MouseButton,
    names: Seq<u64>,
    regions: Seq<MouseRegion>,
    contains_event: Seq<bool>,
    later_names: Seq<u64>,
    later: Seq<MouseRegion>,
    still_contains: Seq<bool>,
    name: u64,
)
    requires
        contains_event.len() == names.len(),
        still_contains.len() <= usize::MAX,
        ({
            let down = presenter_after(p, MouseInput::Down, button, names, regions, contains_event);
            still_contains.len() == down.clicked_regions.len()
        }),
    ensures
        ({
            let down = presenter_after(p, MouseInput::Down, button, names, regions, contains_event);
            let up = presenter_after(
                down,
                MouseInput::Up,
                button,
                later_names,
                later,
                contains_event,
            );
            let groups = groups_for(down, MouseInput::Up, later_names, later, still_contains);
            &&& down.clicked_button == Some(button)
            &&& down.clicked_regions.contains(name) <==> exists|i: int|
                0 <= i < names.len() && #[trigger] names[i] == name && contains_event[i]
            &&& groups.last().event is Click
            &&& groups.last().regions.contains(name) <==> exists|i: int|
                0 <= i < down.clicked_regions.len() && #[trigger] down.clicked_regions[i] == name
                    && still_contains[i]
            &&& up.clicked_regions.len() == 0
            &&& up.clicked_button is None
            &&& down.hovered == p.hovered && up.hovered == p.hovered
            &&& down.rendered == p.rendered && up.rendered == p.rendered
        }),
{
    let down = presenter_after(p, MouseInput::Down, button, names, regions, contains_event);
    lemma_flagged(names, contains_event, name);
    lemma_members_at(down.clicked_regions, still_contains, true, name);
    let chosen = at_places(down.clicked_regions, places_reversed(still_contains, true));
    if chosen.contains(name) {
        let i = choose|i: int|
            0 <= i < down.clicked_regions.len() && #[trigger] down.clicked_regions[i] == name
                && still_contains[i] == true;
        assert(down.clicked_regions[i] == name && still_contains[i]);
    }
}

/// The mouse enters and leaves a region by turns: it enters one that was not hovered and now is, and
/// leaves one that was and is not any more. A region counts as hovered if it contains the mouse and is
/// as deep as the topmost region that does. Nothing else is told, and only the hovered ones are
/// remembered.
pub proof fn hovering_is_told_as_it_changes(
    regions: Seq<MouseRegion>,
    hovered: Set<u64>,
    i: int,
    t: int,
)
    requires
        ids_differ(regions),
        regions.len() <= usize::MAX,
        0 <= i < regions.len(),
        regions[i].id is Some,
        0 <= t < regions.len(),
        regions[t].contains_mouse,
        forall|j: int| t < j < regions.len() ==> !(#[trigger] regions[j]).contains_mouse,
    ensures
        ({
            let after = hover_after(regions, top_depth(regions), hovered);
            let now = regions[i].contains_mouse && regions[i].depth == regions[t].depth;
            let id = regions[i].id->0;
            &&& after.0.contains(id) == now
            &&& after.1.contains(HoverChange { region: i as usize, started: true }) <==> now
                && !hovered.contains(id)
            &&& after.1.contains(HoverChange { region: i as usize, started: false }) <==> !now
                && hovered.contains(id)
        }),
{
    lemma_top_depth(regions, t);
    hover_becomes_right(regions, top_depth(regions), hovered);
    lemma_hover_changes(regions, top_depth(regions), hovered, i);
}

/// Where no region contains the mouse, every region that was hovered is left.
pub proof fn all_regions_are_left(regions: Seq<MouseRegion>, hovered: Set<u64>, i: int)
    requires
        ids_differ(regions),
        regions.len() <= usize::MAX,
        0 <= i < regions.len(),
        regions[i].id is Some,
        forall|j: int| 0 <= j < regions.len() ==> !(#[trigger] regions[j]).contains_mouse,
    ensures
        ({
            let after = hover_after(regions, top_depth(regions), hovered);
            let id = regions[i].id->0;
            &&& !after.0.contains(id)
            &&& !after.1.contains(HoverChange { region: i as usize, started: true })
            &&& after.1.contains(HoverChange { region: i as usize, started: false })
                <==> hovered.contains(id)
        }),
{
    assert(!regions[i].contains_mouse);
    hover_becomes_right(regions, top_depth(regions), hovered);
    lemma_hover_changes(regions, top_depth(regions), hovered, i);
}

/// The regions of a hover event are those that changed, each with whether the mouse came in.
pub proof fn hover_events_name_the_changes(
    p: PresenterView,
    names: Seq<u64>,
    regions: Seq<MouseRegion>,
    pressed: bool,
    k: int,
)
    requires
        names.len() == regions.len(),
        0 <= k < hover_after(regions, top_depth(regions), p.hovered).1.len(),
    ensures
        ({
            let changes = hover_after(regions, top_depth(regions), p.hovered).1;
            let input = MouseInput::Moved { pressed };
            let group = groups_for(p, input, names, regions, Seq::empty()).last();
            &&& group.event is Hover
            &&& group.regions.len() == changes.len() && group.entered.len() == changes.len()
            &&& group.regions[k] == names[changes[k].region as int]
            &&& group.entered[k] == changes[k].started
        }),
{
}

proof fn lemma_top_depth(regions: Seq<MouseRegion>, t: int)
    requires
        0 <= t < regions.len(),
        regions[t].contains_mouse,
        forall|j: int| t < j < regions.len() ==> !(#[trigger] regions[j]).contains_mouse,
    ensures
        top_depth(regions) == Some(regions[t].depth),
    decreases regions.len(),
{
    let init = regions.drop_last();
    if t < init.len() {
        assert(!regions[regions.len() - 1].contains_mouse);
        assert(init[t] == regions[t]);
        assert forall|j: int| t < j < init.len() implies !(#[trigger] init[j]).contains_mouse by {
            assert(init[j] == regions[j]);
        }
        lemma_top_depth(init, t);
    }
}

proof fn lemma_hover_changes(
    regions: Seq<MouseRegion>,
    top: Option<usize>,
    hovered: Set<u64>,
    i: int,
)
    requires
        ids_differ(regions),
        regions.len() <= usize::MAX,
        0 <= i < regions.len(),
        regions[i].id is Some,
    ensures
        ({
            let changes = hover_after(regions, top, hovered).1;
            let now = is_hovered(regions[i], top);
            let was = hovered.contains(regions[i].id->0);
            &&& changes.contains(HoverChange { region: i as usize, started: true }) <==> now && !was
            &&& changes.contains(HoverChange { region: i as usize, started: false }) <==> !now && was
        }),
    decreases regions.len(),
{
    let init = regions.drop_last();
    let n = regions.len() - 1;
    let first = hover_step(regions.last(), n as usize, top, hovered);
    let rest = hover_after(init, top, first.0);
    let all = first.1 + rest.1;
    let on = HoverChange { region: i as usize, started: true };
    let off = HoverChange { region: i as usize, started: false };
    assert forall|c: HoverChange| #[trigger] all.contains(c) <==> first.1.contains(c)
        || rest.1.contains(c) by {
        if all.contains(c) {
            let k = choose|k: int| 0 <= k < all.len() && all[k] == c;
            if k < first.1.len() {
                assert(first.1[k] == c);
            } else {
                assert(rest.1[k - first.1.len()] == c);
            }
        }
        if first.1.contains(c) {
            let k = choose|k: int| 0 <= k < first.1.len() && first.1[k] == c;
            assert(all[k] == c);
        }
        if rest.1.contains(c) {
            let k = choose|k: int| 0 <= k < rest.1.len() && rest.1[k] == c;
            assert(all[k + first.1.len()] == c);
        }
    }
    if i < n {
        assert(init[i] == regions[i]);
        assert(regions[i].id != regions[n].id);
        lemma_hover_changes(init, top, first.0, i);
        assert(!first.1.contains(on) && !first.1.contains(off));
    } else {
        lemma_no_later_change(init, top, first.0, on);
        lemma_no_later_change(init, top, first.0, off);
        if first.1.len() > 0 {
            assert(first.1[0].region == n as usize);
            assert(first.1.contains(first.1[0]));
        }
    }
}

proof fn lemma_no_later_change(
    regions: Seq<MouseRegion>,
    top: Option<usize>,
    hovered: Set<u64>,
    c: HoverChange,
)
    requires
        regions.len() <= c.region,
    ensures
        !hover_after(regions, top, hovered).1.contains(c),
{
    let changes = hover_after(regions, top, hovered).1;
    if changes.contains(c) {
        let k = choose|k: int| 0 <= k < changes.len() && changes[k] == c;
        lemma_changes_within(regions, top, hovered, k);
    }
}

fn contains_flags(regions: &Vec<MouseRegion>) -> (r: Vec<bool>)
    ensures
        r@ == mouse_flags(regions@),
{
    let mut r: Vec<bool> = Vec::new();
    let mut i: usize = 0;
    while i < regions.len()
        invariant
            i <= regions.len(),
            r@ == mouse_flags(regions@).take(i as int),
        decreases regions.len() - i,
    {
        r.push(regions[i].contains_mouse);
        i += 1;
        assert(r@ =~= mouse_flags(regions@).take(i as int));
    }
    assert(r@ =~= mouse_flags(regions@));
    r
}

fn make_group(event: RegionEvent, names: &Vec<u64>, contains: &Vec<bool>, local: bool) -> (r:
    EventGroup)
    requires
        names.len() == contains.len(),
    ensures
        r@ == (EventGroupView {
            event,
            regions: at_places(names@, places_reversed(contains@, local)),
            entered: Seq::empty(),
        }),
{
    let places: Vec<usize> = make_events(contains, local);
    let mut regions: Vec<u64> = Vec::new();
    let mut i: usize = 0;
    while i < places.len()
        invariant
            i <= places.len(),
            names.len() == contains.len(),
            places@ == places_reversed(contains@, local),
            regions@ == at_places(names@, places@.take(i as int)),
        decreases places.len() - i,
    {
        proof {
            lemma_places_within(contains@, local, i as int);
            assert(at_places(names@, places@.take(i + 1)) =~= regions@.push(
                names@[places@[i as int] as int],
            ));
        }
        regions.push(names[places[i]]);
        i += 1;
    }
    assert(places@.take(i as int) =~= places@);
    EventGroup { event, regions, entered: Vec::new() }
}

fn make_hover_group(names: &Vec<u64>, changes: &Vec<HoverChange>) -> (r: EventGroup)
    requires
        forall|k: int| 0 <= k < changes@.len() ==> (#[trigger] changes@[k]).region < names@.len(),
    ensures
        r@ == hover_group(names@, changes@),
{
    let mut regions: Vec<u64> = Vec::new();
    let mut entered: Vec<bool> = Vec::new();
    let ghost whole = hover_group(names@, changes@);
    let mut i: usize = 0;
    while i < changes.len()
        invariant
            i <= changes.len(),
            forall|k: int|
                0 <= k < changes@.len() ==> (#[trigger] changes@[k]).region < names@.len(),
            whole == hover_group(names@, changes@),
            regions@ == whole.regions.take(i as int),
            entered@ == whole.entered.take(i as int),
        decreases changes.len() - i,
    {
        let change: HoverChange = changes[i];
        regions.push(names[change.region]);
        entered.push(change.started);
        i += 1;
        assert(regions@ =~= whole.regions.take(i as int));
        assert(entered@ =~= whole.entered.take(i as int));
    }
    assert(whole.regions.take(i as int) =~= whole.regions);
    assert(whole.entered.take(i as int) =~= whole.entered);
    EventGroup { event: RegionEvent::Hover, regions, entered }
}

proof fn lemma_changes_within(
    regions: Seq<MouseRegion>,
    top: Option<usize>,
    hovered: Set<u64>,
    k: int,
)
    requires
        regions.len() <= usize::MAX,
        0 <= k < hover_after(regions, top, hovered).1.len(),
    ensures
        hover_after(regions, top, hovered).1[k].region < regions.len(),
    decreases regions.len(),
{
    if regions.len() > 0 {
        let first = hover_step(regions.last(), (regions.len() - 1) as usize, top, hovered);
        if k >= first.1.len() {
            lemma_changes_within(regions.drop_last(), top, first.0, k - first.1.len());
        }
    }
}

impl Presenter {
    /// Something happened to the mouse: tells which region events are fired, one group after the
    /// other, and which regions each of them goes to. `regions` tells of the regions named in
    /// `names` whether they contain the place where the mouse was before; `contains_event` tells it
    /// of the place where it is now, and `still_contains` tells that of the regions in which a
    /// button went down. Where the window has no root view, nothing is to be done: then this is not
    /// called.
    pub fn dispatch_event(
        &mut self,
        input: MouseInput,
        button: MouseButton,
        names: &Vec<u64>,
        regions: &Vec<MouseRegion>,
        contains_event: &Vec<bool>,
        still_contains: &Vec<bool>,
    ) -> (r: Vec<EventGroup>)
        requires
            names.len() == regions.len(),
            input is Down ==> contains_event.len() == names.len(),
            input is Up ==> still_contains.len() == old(self)@.clicked_regions.len(),
        ensures
            group_views(r@) == groups_for(
                old(self)@,
                input,
                names@,
                regions@,
                still_contains@,
            ),
            final(self)@ == presenter_after(
                old(self)@,
                input,
                button,
                names@,
                regions@,
                contains_event@,
            ),
    {
        let ghost expected = groups_for(self@, input, names@, regions@, still_contains@);
        let contains: Vec<bool> = contains_flags(regions);
        let mut r: Vec<EventGroup> = Vec::new();
        match input {
            MouseInput::Down => {
                self.mouse_down(names, contains_event, button);
                r.push(make_group(RegionEvent::Down, names, &contains, true));
                r.push(make_group(RegionEvent::DownOut, names, &contains, false));
                assert(group_views(r@) =~= expected);
            },
            MouseInput::Up => {
                r.push(make_group(RegionEvent::Up, names, &contains, true));
                r.push(make_group(RegionEvent::UpOut, names, &contains, false));
                let clicked: Vec<u64> = self.make_click_events(still_contains);
                r.push(
                    EventGroup { event: RegionEvent::Click, regions: clicked, entered: Vec::new() },
                );
                assert(group_views(r@) =~= expected);
            },
            MouseInput::Moved { pressed } => {
                if pressed {
                    r.push(make_group(RegionEvent::Drag, names, &contains, true));
                }
                r.push(make_group(RegionEvent::Move, names, &contains, true));
                let changes: Vec<HoverChange> = self.make_hover_events(regions);
                proof {
                    assert forall|k: int| 0 <= k < changes@.len() implies (
                    #[trigger] changes@[k]).region < names@.len() by {
                        lemma_changes_within(
                            regions@,
                            top_depth(regions@),
                            old(self)@.hovered,
                            k,
                        );
                    }
                }
                r.push(make_hover_group(names, &changes));
                assert(group_views(r@) =~= expected);
            },
            MouseInput::Other => {
                assert(group_views(r@) =~= expected);
            },
        }
        r
    }
}

/// The firing of one region event: it goes to the regions in turn, as long as it bubbles.
#[derive(Clone, Copy, Debug, PartialEq, Eq, Structural)]
pub struct EventFiring {
    pub next: usize,
    pub handled: bool,
    pub stopped: bool,
}

impl EventFiring {
    /// An event before its first region. Whether the last event was handled is carried over.
    pub fn new(handled: bool) -> (r: EventFiring)
        ensures
            r == (EventFiring { next: 0, handled, stopped: false }),
    {
        EventFiring { next: 0, handled, stopped: false }
    }

    /// The next region with a handler for the event.
    pub fn next_region(&mut self, has_handler: &Vec<bool>) -> (r: Option<usize>)
        requires
            old(self).next <= has_handler.len(),
        ensures
            final(self).next <= has_handler.len(),
            final(self).handled == old(self).handled,
            final(self).stopped == old(self).stopped,
            match r {
                Some(i) => {
                    &&& !old(self).stopped
                    &&& old(self).next <= i < has_handler@.len()
                    &&& has_handler@[i as int]
                    &&& forall|k: int| old(self).next <= k < i ==> !has_handler@[k]
                    &&& final(self).next == i + 1
                },
                None => old(self).stopped || forall|k: int|
                    old(self).next <= k < has_handler@.len() ==> !has_handler@[k],
            },
    {
        if self.stopped {
            return None;
        }
        while self.next < has_handler.len()
            invariant
                old(self).next <= self.next <= has_handler.len(),
                self.handled == old(self).handled,
                self.stopped == old(self).stopped,
                !self.stopped,
                forall|k: int| old(self).next <= k < self.next ==> !has_handler@[k],
            decreases has_handler.len() - self.next,
        {
            let i: usize = self.next;
            self.next = i + 1;
            if has_handler[i] {
                return Some(i);
            }
        }
        None
    }

    /// A handler was called. A local event that it did not pass on goes no further.
    pub fn called(&mut self, passed_on: bool, local: bool)
        ensures
            *final(self) == (EventFiring {
                next: old(self).next,
                handled: !passed_on,
                stopped: old(self).stopped || (!passed_on && local),
            }),
    {
        self.handled = !passed_on;
        if !passed_on && local {
            self.stopped = true;
        }
    }
}

/// Where a view was put when it was made.
#[derive(Clone, Copy, Debug, PartialEq, Eq, Structural)]
pub enum ParentId {
    View(usize),
    Root,
}

/// A view that is laid out elsewhere than it was put.
#[derive(Clone, Copy, Debug, PartialEq, Eq, Structural)]
pub enum ParentMismatch {
    OtherParent { layout_parent: usize, app_parent: usize },
    NoLayoutParent { app_parent: usize },
    WindowRoot { layout_parent: usize },
    NotRegistered,
}

/// What is wrong with the place in which a view is laid out.
pub open spec fn mismatch_of(
    layout_parent: Option<usize>,
    app_parent: Option<ParentId>,
) -> Option<ParentMismatch> {
    match (layout_parent, app_parent) {
        (_, None) => Some(ParentMismatch::NotRegistered),
        (Some(l), Some(ParentId::View(a))) => if l == a {
            None
        } else {
            Some(ParentMismatch::OtherParent { layout_parent: l, app_parent: a })
        },
        (None, Some(ParentId::View(a))) => Some(ParentMismatch::NoLayoutParent { app_parent: a }),
        (Some(l), Some(ParentId::Root)) => Some(ParentMismatch::WindowRoot { layout_parent: l }),
        (None, Some(ParentId::Root)) => None,
    }
}

/// What is wrong with the place in which a view is laid out.
pub fn check_parent(layout_parent: Option<usize>, app_parent: Option<ParentId>) -> (r: Option<
    ParentMismatch,
>)
    ensures
        r == mismatch_of(layout_parent, app_parent),
{
    match (layout_parent, app_parent) {
        (_, None) => Some(ParentMismatch::NotRegistered),
        (Some(l), Some(ParentId::View(a))) => if l == a {
            None
        } else {
            Some(ParentMismatch::OtherParent { layout_parent: l, app_parent: a })
        },
        (None, Some(ParentId::View(a))) => Some(ParentMismatch::NoLayoutParent { app_parent: a }),
        (Some(l), Some(ParentId::Root)) => Some(ParentMismatch::WindowRoot { layout_parent: l }),
        (None, Some(ParentId::Root)) => None,
    }
}

/// How a view is called in a message.
pub open spec fn view_label(name: Seq<char>, id: usize) -> Seq<char> {
    name + " with id "@ + decimal(id as nat)
}

/// How a view is called in a message.
pub fn describe_view(name: &str, id: usize) -> (r: String)
    ensures
        r@ == view_label(name@, id),
{
    let mut r: String = name.to_owned();
    r.append(" with id ");
    r.append(decimal_text(id).as_str());
    r
}

impl ParentMismatch {
    /// What is said of the view, given how it and the two parents are called.
    pub fn message(&self, view: &str, layout_parent: &str, app_parent: &str) -> (r: String)
        ensures
            r@ == (match *self {
                ParentMismatch::OtherParent { .. } => "View "@ + view@
                    + " was laid out with parent "@ + layout_parent@
                    + " when it was constructed with parent "@ + app_parent@,
                ParentMismatch::NoLayoutParent { .. } => "View "@ + view@
                    + " was laid out without a parent when it was constructed with parent "@
                    + app_parent@,
                ParentMismatch::WindowRoot { .. } => "View "@ + view@
                    + " was laid out with parent "@ + layout_parent@
                    + " when it was constructed as a window root"@,
                ParentMismatch::NotRegistered => "View "@ + view@
                    + " did not have a registered parent in the app context"@,
            }),
    {
        let mut r: String = "View ".to_owned();
        r.append(view);
        match self {
            ParentMismatch::OtherParent { .. } => {
                r.append(" was laid out with parent ");
                r.append(layout_parent);
                r.append(" when it was constructed with parent ");
                r.append(app_parent);
            },
            ParentMismatch::NoLayoutParent { .. } => {
                r.append(" was laid out without a parent when it was constructed with parent ");
                r.append(app_parent);
            },
            ParentMismatch::WindowRoot { .. } => {
                r.append(" was laid out with parent ");
                r.append(layout_parent);
                r.append(" when it was constructed as a window root");
            },
            ParentMismatch::NotRegistered => {
                r.append(" did not have a registered parent in the app context");
            },
        }
        r
    }
}

/// What handlers of an event leave behind: the views around the one that is called, and the views
/// that have to be drawn again.
pub struct EventContext {
    view_stack: Vec<usize>,
    invalidated_views: HashMap<usize, ()>,
    notify_count: usize,
}

/// The meaning of such a record.
#[verifier::ext_equal]
pub struct EventContextView {
    pub view_stack: Seq<usize>,
    pub invalidated_views: Set<usize>,
    pub notify_count: usize,
}

impl View for EventContext {
    type V = EventContextView;

    closed spec fn view(&self) -> EventContextView {
        EventContextView {
            view_stack: self.view_stack@,
            invalidated_views: self.invalidated_views@.dom(),
            notify_count: self.notify_count,
        }
    }
}

impl EventContext {
    /// Outside of all views.
    pub fn new() -> (r: EventContext)
        ensures
            r@ == (EventContextView {
                view_stack: Seq::empty(),
                invalidated_views: Set::empty(),
                notify_count: 0,
            }),
    {
        let r = EventContext {
            view_stack: Vec::new(),
            invalidated_views: HashMap::new(),
            notify_count: 0,
        };
        assert(r@.invalidated_views =~= Set::empty());
        r
    }

    /// Goes into a view.
    pub fn enter_view(&mut self, view_id: usize)
        ensures
            final(self)@ == (EventContextView {
                view_stack: old(self)@.view_stack.push(view_id),
                ..old(self)@
            }),
    {
        self.view_stack.push(view_id);
    }

    /// Comes out of a view.
    pub fn leave_view(&mut self) -> (r: Option<usize>)
        ensures
            old(self)@.view_stack.len() == 0 ==> r is None && final(self)@ == old(self)@,
            old(self)@.view_stack.len() > 0 ==> r == Some(old(self)@.view_stack.last())
                && final(self)@ == (EventContextView {
                view_stack: old(self)@.view_stack.drop_last(),
                ..old(self)@
            }),
    {
        self.view_stack.pop()
    }

    /// The innermost view.
    pub fn view_id(&self) -> (r: Option<usize>)
        ensures
            r == (if self@.view_stack.len() == 0 {
                None
            } else {
                Some(self@.view_stack.last())
            }),
    {
        let n: usize = self.view_stack.len();
        if n == 0 {
            None
        } else {
            Some(self.view_stack[n - 1])
        }
    }

    /// Whether the innermost view has the focus.
    pub fn is_parent_view_focused(&self, focused: Option<usize>) -> (r: bool)
        ensures
            r == (self@.view_stack.len() > 0 && focused == Some(self@.view_stack.last())),
    {
        match (self.view_id(), focused) {
            (Some(parent), Some(view)) => parent == view,
            _ => false,
        }
    }

    /// Has the innermost view drawn again.
    pub fn notify(&mut self)
        requires
            old(self)@.notify_count < usize::MAX,
        ensures
            final(self)@ == (EventContextView {
                notify_count: (old(self)@.notify_count + 1) as usize,
                invalidated_views: if old(self)@.view_stack.len() == 0 {
                    old(self)@.invalidated_views
                } else {
                    old(self)@.invalidated_views.insert(old(self)@.view_stack.last())
                },
                ..old(self)@
            }),
    {
        self.notify_count = self.notify_count + 1;
        if let Some(view_id) = self.view_id() {
            self.invalidated_views.insert(view_id, ());
            assert(self@.invalidated_views =~= old(self)@.invalidated_views.insert(view_id));
        }
    }

    /// How often something was to be drawn again.
    pub fn notify_count(&self) -> (r: usize)
        ensures
            r == self@.notify_count,
    {
        self.notify_count
    }

    /// Whether a view has to be drawn again.
    pub fn is_invalidated(&self, view_id: usize) -> (r: bool)
        ensures
            r == self@.invalidated_views.contains(view_id),
    {
        self.invalidated_views.contains_key(&view_id)
    }
}

impl EventContext {
    /// The views that have to be drawn again, in no order.
    pub fn invalidated_views(&self) -> (r: Vec<usize>)
        ensures
            r@.to_set() == self@.invalidated_views,
            no_repeats(r@),
    {
        let mut r: Vec<usize> = Vec::new();
        for id in iter: self.invalidated_views.keys()
            invariant
                r@ == iter.seq().unref().take(iter.index() as int),
        {
            r.push(*id);
        }
        assert(r@ =~= self.invalidated_views.keys().remaining().unref());
        r
    }
}

impl Presenter {
    /// The view whose elements an event goes to after its regions, whatever these made of it: the
    /// root view of the window, if there is one and it was drawn.
    pub fn event_target(&self, root_view: Option<usize>) -> (r: Option<usize>)
        ensures
            r == (match root_view {
                Some(view_id) => if self@.rendered.contains(view_id) {
                    Some(view_id)
                } else {
                    None
                },
                None => None,
            }),
    {
        match root_view {
            Some(view_id) => if self.is_rendered(view_id) {
                Some(view_id)
            } else {
                None
            },
            None => None,
        }
    }
}

/// How an event ends: whether it was handled, and which views are told that they changed.
#[derive(Debug)]
pub struct EventEnd {
    pub handled: bool,
    pub notified: Vec<usize>,
}

/// Ends an event. What the elements of the root view made of it is the result; `answer` is missing if
/// it went to none. Nothing happens in a window without a root view.
pub fn finish_event(root_view: Option<usize>, answer: Option<bool>, context: &EventContext) -> (r:
    EventEnd)
    ensures
        r.handled == (root_view is Some && answer == Some(true)),
        r.notified@.to_set() == (if root_view is Some {
            context@.invalidated_views
        } else {
            Set::empty()
        }),
        no_repeats(r.notified@),
{
    if root_view.is_none() {
        let notified: Vec<usize> = Vec::new();
        assert(notified@.to_set() =~= Set::empty());
        return EventEnd { handled: false, notified };
    }
    let handled: bool = match answer {
        Some(handled) => handled,
        None => false,
    };
    EventEnd { handled, notified: context.invalidated_views() }
}

impl Default for EventContext {
    fn default() -> (r: Self)
        ensures
            r@.view_stack == Seq::<usize>::empty(),
            r@.invalidated_views == Set::<usize>::empty(),
            r@.notify_count == 0,
    {
        EventContext::new()
    }
}

/// A view that was entered and left leaves the others as they were.
pub proof fn entering_and_leaving_is_nothing(stack: Seq<usize>, view_id: usize)
    ensures
        stack.push(view_id).drop_last() == stack,
        stack.push(view_id).last() == view_id,
{
    assert(stack.push(view_id).drop_last() =~= stack);
}

/// A view may be laid out in the view that it was put in, and nowhere else: at the root exactly if it was
/// put there. What is wrong otherwise names both places.
pub proof fn views_belong_where_they_were_put(layout_parent: Option<usize>, app_parent: Option<ParentId>)
    ensures
        mismatch_of(layout_parent, app_parent) is None <==> (match app_parent {
            Some(ParentId::View(a)) => layout_parent == Some(a),
            Some(ParentId::Root) => layout_parent is None,
            None => false,
        }),
        app_parent is None ==> mismatch_of(layout_parent, app_parent) == Some(
            ParentMismatch::NotRegistered,
        ),
        mismatch_of(layout_parent, app_parent) matches Some(
            ParentMismatch::OtherParent { layout_parent: l, app_parent: a },
        ) ==> layout_parent == Some(l) && app_parent == Some(ParentId::View(a)),
        mismatch_of(layout_parent, app_parent) matches Some(
            ParentMismatch::NoLayoutParent { app_parent: a },
        ) ==> layout_parent is None && app_parent == Some(ParentId::View(a)),
        mismatch_of(layout_parent, app_parent) matches Some(
            ParentMismatch::WindowRoot { layout_parent: l },
        ) ==> layout_parent == Some(l) && app_parent == Some(ParentId::Root),
        mismatch_of(layout_parent, app_parent) == Some(ParentMismatch::NotRegistered) ==> app_parent
            is None,
{
}

/// Horizontal is across vertical and the other way round.
pub proof fn inverting_crosses(axis: Axis)
    ensures
        inverted(Axis::Horizontal) == Axis::Vertical,
        inverted(Axis::Vertical) == Axis::Horizontal,
{
}

} // verus!
