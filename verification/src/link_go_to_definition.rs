//! Links from a symbol to its definition, shown while the command key is held.
use vstd::prelude::*;
use crate::anchor::{Anchor, AnchorRange};
use crate::display_map::DisplayPoint;
use crate::point::Bias;
use crate::wrap_rows::{clip_offset, clipped_offset};

verus! {

/// The mouse moved to a place, or away from all of them.
#[derive(Clone, Copy, Debug, PartialEq, Eq)]
pub struct UpdateGoToDefinitionLink {
    pub point: Option<DisplayPoint>,
    pub cmd_held: bool,
}

/// The command key was pressed or released.
#[derive(Clone, Copy, Debug, PartialEq, Eq)]
pub struct CmdChanged {
    pub cmd_down: bool,
}

/// A click on a link.
#[derive(Clone, Copy, Debug, PartialEq, Eq)]
pub struct GoToFetchedDefinition {
    pub point: DisplayPoint,
}

/// A range of a buffer, in offsets.
#[derive(Clone, Copy, Debug, PartialEq, Eq, Structural)]
pub struct Location {
    pub buffer: u64,
    pub start: usize,
    pub end: usize,
}

/// A definition: where the symbol is that leads to it, if the server tells, and where it stands.
#[derive(Clone, Copy, Debug, PartialEq, Eq, Structural)]
pub struct LocationLink {
    pub origin: Option<AnchorRange>,
    pub target: Location,
}

/// The state of the link: where the mouse was last, the symbol that is known, its definitions, and
/// whether a request is on its way.
#[derive(Debug)]
pub struct LinkGoToDefinitionState {
    pub last_mouse_location: Option<Anchor>,
    pub symbol_range: Option<AnchorRange>,
    pub definitions: Vec<LocationLink>,
    pub task: bool,
}

/// The meaning of the state of the link.
#[verifier::ext_equal]
pub struct LinkView {
    pub last_mouse_location: Option<Anchor>,
    pub symbol_range: Option<AnchorRange>,
    pub definitions: Seq<LocationLink>,
    pub task: bool,
}

impl View for LinkGoToDefinitionState {
    type V = LinkView;

    open spec fn view(&self) -> LinkView {
        LinkView {
            last_mouse_location: self.last_mouse_location,
            symbol_range: self.symbol_range,
            definitions: self.definitions@,
            task: self.task,
        }
    }
}

/// What the editor knows about a place: whether a rename is going on, whether the place is in an
/// excerpt of a buffer, and whether the editor has a project.
#[derive(Clone, Copy, Debug, PartialEq, Eq)]
pub struct LinkSite {
    pub pending_rename: bool,
    pub in_excerpt: bool,
    pub has_project: bool,
}

/// What is to be done about the link.
#[derive(Clone, Copy, Debug, PartialEq, Eq, Structural)]
pub enum LinkAction {
    Nothing,
    Request { from: Anchor },
    ClearHighlights { notify: bool },
}

/// What is to be done when definitions have come.
#[derive(Clone, Copy, Debug, PartialEq, Eq, Structural)]
pub struct LinkEffect {
    pub highlight: Option<AnchorRange>,
    pub notify: bool,
}

/// Where a click on a link leads.
#[derive(Debug)]
pub enum LinkJump {
    Navigate { definitions: Vec<LocationLink> },
    SelectAndAsk { point: DisplayPoint },
}

/// The state without a link.
pub open spec fn unlinked(s: LinkView) -> LinkView {
    LinkView { symbol_range: None, definitions: Seq::empty(), task: false, ..s }
}

/// Whether definitions are asked for at a place: not during a rename, and not again within the
/// symbol that was asked about.
pub open spec fn asks(s: LinkView, site: LinkSite, place: Anchor) -> bool {
    &&& !site.pending_rename
    &&& site.in_excerpt
    &&& site.has_project
    &&& s.symbol_range matches Some(range) ==> !range.holds(place)
}

/// What showing the link at a place does.
pub open spec fn shown(s: LinkView, site: LinkSite, place: Anchor) -> (LinkView, LinkAction) {
    if asks(s, site, place) {
        (LinkView { task: true, ..s }, LinkAction::Request { from: place })
    } else {
        (s, LinkAction::Nothing)
    }
}

/// What hiding the link does.
pub open spec fn cleared(s: LinkView) -> (LinkView, LinkAction) {
    (
        unlinked(s),
        LinkAction::ClearHighlights { notify: s.symbol_range is Some || s.definitions.len() > 0 },
    )
}

/// What a move of the mouse does: nothing if it stays at its place; otherwise the place is
/// remembered, and the link is shown if the command key is held, or hidden.
pub open spec fn moved(
    s: LinkView,
    site: LinkSite,
    place: Option<Anchor>,
    cmd_held: bool,
) -> (LinkView, LinkAction) {
    let after = LinkView { last_mouse_location: place, ..s };
    if place is Some && place == s.last_mouse_location {
        (s, LinkAction::Nothing)
    } else if cmd_held && place is Some {
        shown(after, site, place->0)
    } else {
        cleared(after)
    }
}

/// The origin that the first definition with one tells.
pub open spec fn first_origin(links: Seq<LocationLink>) -> Option<AnchorRange>
    decreases links.len(),
{
    if links.len() == 0 {
        None
    } else if links[0].origin is Some {
        links[0].origin
    } else {
        first_origin(links.skip(1))
    }
}

/// Whether a definition stands elsewhere than around an offset of a buffer. The definition counts
/// as one character longer on either side.
pub open spec fn leads_away(link: LocationLink, buffer: u64, text: Seq<u8>, offset: usize) -> bool {
    let start = if link.target.start > 0 {
        link.target.start - 1
    } else {
        0
    };
    link.target.buffer != buffer || !(clipped_offset(text, start, Bias::Left) <= offset
        <= clipped_offset(text, link.target.end + 1, Bias::Right))
}

/// Whether any definition stands elsewhere.
pub open spec fn any_leads_away(
    links: Seq<LocationLink>,
    buffer: u64,
    text: Seq<u8>,
    offset: usize,
) -> bool {
    exists|i: int| 0 <= i < links.len() && leads_away(#[trigger] links[i], buffer, text, offset)
}

/// Hiding the link twice is hiding it once, and the second time nothing changes on the screen.
pub proof fn clearing_twice_is_clearing_once(s: LinkView)
    ensures
        cleared(cleared(s).0) == (
            cleared(s).0,
            LinkAction::ClearHighlights { notify: false },
        ),
{
    assert(unlinked(unlinked(s)) =~= unlinked(s));
}

/// Within the symbol that was asked about, moving the mouse asks nothing again.
pub proof fn symbol_is_asked_about_once(s: LinkView, site: LinkSite, place: Anchor)
    requires
        s.symbol_range is Some,
        s.symbol_range->0.holds(place),
    ensures
        moved(s, site, Some(place), true).1 is Nothing,
        moved(s, site, Some(place), true).0.symbol_range == s.symbol_range,
        moved(s, site, Some(place), true).0.definitions == s.definitions,
{
}

/// Pressing the command key after the mouse came to a place does the same as moving there with the
/// key held.
pub proof fn key_may_come_later(s: LinkView, site: LinkSite, place: Anchor)
    requires
        s.last_mouse_location != Some(place),
        s.symbol_range is None,
        s.definitions.len() == 0,
        !s.task,
    ensures
        ({
            let there = moved(s, site, Some(place), false).0;
            shown(there, site, place) == moved(s, site, Some(place), true)
        }),
{
    let there = moved(s, site, Some(place), false).0;
    assert(there =~= LinkView { last_mouse_location: Some(place), ..s });
}

impl Default for LinkGoToDefinitionState {
    fn default() -> (r: Self)
        ensures
            r@ == (LinkView {
                last_mouse_location: None,
                symbol_range: None,
                definitions: Seq::empty(),
                task: false,
            }),
    {
        LinkGoToDefinitionState {
            last_mouse_location: None,
            symbol_range: None,
            definitions: Vec::new(),
            task: false,
        }
    }
}

/// Hides the link.
pub fn hide_link_definition(state: &mut LinkGoToDefinitionState) -> (r: LinkAction)
    ensures
        (final(state)@, r) == cleared(old(state)@),
{
    let notify: bool = state.symbol_range.is_some() || state.definitions.len() > 0;
    if notify {
        state.symbol_range = None;
        state.definitions = Vec::new();
    }
    state.task = false;
    assert(state@ =~= unlinked(old(state)@));
    LinkAction::ClearHighlights { notify }
}

/// Shows the link of the symbol at a place: decides whether its definitions are asked for.
pub fn show_link_definition(
    state: &mut LinkGoToDefinitionState,
    trigger_point: Anchor,
    site: &LinkSite,
) -> (r: LinkAction)
    ensures
        (final(state)@, r) == shown(old(state)@, *site, trigger_point),
{
    if site.pending_rename || !site.in_excerpt || !site.has_project {
        return LinkAction::Nothing;
    }
    if let Some(range) = state.symbol_range {
        if range.start.is_at_most(&trigger_point) && trigger_point.is_at_most(&range.end) {
            return LinkAction::Nothing;
        }
    }
    state.task = true;
    LinkAction::Request { from: trigger_point }
}

/// Follows a move of the mouse to `point`.
pub fn update_go_to_definition_link(
    state: &mut LinkGoToDefinitionState,
    point: Option<Anchor>,
    cmd_held: bool,
    site: &LinkSite,
) -> (r: LinkAction)
    ensures
        (final(state)@, r) == moved(old(state)@, *site, point, cmd_held),
{
    if let Some(a) = point {
        if let Some(b) = state.last_mouse_location {
            if a == b {
                return LinkAction::Nothing;
            }
        }
    }
    state.last_mouse_location = point;
    if cmd_held {
        if let Some(place) = point {
            return show_link_definition(state, place, site);
        }
    }
    hide_link_definition(state)
}

/// Follows the command key.
pub fn cmd_changed(
    state: &mut LinkGoToDefinitionState,
    action: &CmdChanged,
    site: &LinkSite,
) -> (r: LinkAction)
    ensures
        (final(state)@, r) == match old(state)@.last_mouse_location {
            Some(place) => if action.cmd_down {
                shown(old(state)@, *site, place)
            } else {
                cleared(old(state)@)
            },
            None => (old(state)@, LinkAction::Nothing),
        },
{
    match state.last_mouse_location {
        Some(place) => if action.cmd_down {
            show_link_definition(state, place, site)
        } else {
            hide_link_definition(state)
        },
        None => LinkAction::Nothing,
    }
}

fn leads_elsewhere(link: &LocationLink, buffer: u64, text: &Vec<u8>, offset: usize) -> (r: bool)
    ensures
        r == leads_away(*link, buffer, text@, offset),
{
    if link.target.buffer != buffer {
        return true;
    }
    let before: usize = if link.target.start > 0 {
        link.target.start - 1
    } else {
        0
    };
    let start: usize = clip_offset(text, before, Bias::Left);
    let end: usize = if link.target.end < text.len() {
        clip_offset(text, link.target.end + 1, Bias::Right)
    } else {
        text.len()
    };
    !(start <= offset && end >= offset)
}

/// Takes in the definitions of the symbol at `offset` of `buffer`, whose text is `text`; `None`
/// stands for a request that failed. What was highlighted is so no more. The symbol is highlighted if
/// some definition stands elsewhere: the range that the server told, or the word around the place.
pub fn take_definitions(
    state: &mut LinkGoToDefinitionState,
    result: Option<Vec<LocationLink>>,
    buffer: u64,
    text: &Vec<u8>,
    offset: usize,
    word: AnchorRange,
) -> (r: LinkEffect)
    ensures
        match result {
            Some(links) => if any_leads_away(links@, buffer, text@, offset) {
                &&& final(state)@ == LinkView {
                    symbol_range: first_origin(links@),
                    definitions: links@,
                    ..old(state)@
                }
                &&& r == LinkEffect {
                    highlight: Some(
                        match first_origin(links@) {
                            Some(range) => range,
                            None => word,
                        },
                    ),
                    notify: false,
                }
            } else {
                &&& final(state)@ == unlinked(old(state)@)
                &&& r == LinkEffect { highlight: None, notify: links@.len() > 0 }
            },
            None => {
                &&& final(state)@ == LinkView { symbol_range: None, ..old(state)@ }
                &&& r == LinkEffect { highlight: None, notify: false }
            },
        },
{
    match result {
        Some(links) => {
            let ghost all = links@;
            let mut origin: Option<AnchorRange> = None;
            let mut away: bool = false;
            let mut i: usize = 0;
            assert(all.skip(0) =~= all);
            while i < links.len()
                invariant
                    all == links@,
                    i <= links.len(),
                    first_origin(all) == (if origin is Some {
                        origin
                    } else {
                        first_origin(all.skip(i as int))
                    }),
                    away == exists|k: int|
                        0 <= k < i && leads_away(#[trigger] all[k], buffer, text@, offset),
                decreases links.len() - i,
            {
                proof {
                    assert(all.skip(i as int)[0] == all[i as int]);
                    assert(all.skip(i as int).skip(1) =~= all.skip(i + 1));
                }
                if origin.is_none() {
                    origin = links[i].origin;
                }
                if leads_elsewhere(&links[i], buffer, text, offset) {
                    away = true;
                }
                i += 1;
            }
            state.symbol_range = origin;
            state.definitions = links;
            if away {
                let highlight: AnchorRange = match origin {
                    Some(range) => range,
                    None => word,
                };
                assert(state@ =~= LinkView {
                    symbol_range: first_origin(all),
                    definitions: all,
                    ..old(state)@
                });
                LinkEffect { highlight: Some(highlight), notify: false }
            } else {
                proof {
                    if origin is Some {
                        assert(all.len() > 0);
                    }
                }
                let action: LinkAction = hide_link_definition(state);
                assert(state@ =~= unlinked(old(state)@));
                match action {
                    LinkAction::ClearHighlights { notify } => LinkEffect {
                        highlight: None,
                        notify,
                    },
                    _ => LinkEffect { highlight: None, notify: false },
                }
            }
        },
        None => {
            state.symbol_range = None;
            assert(state@ =~= LinkView { symbol_range: None, ..old(state)@ });
            LinkEffect { highlight: None, notify: false }
        },
    }
}

/// Follows a click: the definitions that are known are gone to, and the link is hidden; where none
/// is known, the place is selected and its definition is asked for.
pub fn go_to_fetched_definition(
    state: &mut LinkGoToDefinitionState,
    action: &GoToFetchedDefinition,
) -> (r: (LinkJump, LinkAction))
    ensures
        (final(state)@, r.1) == cleared(old(state)@),
        old(state)@.definitions.len() > 0 ==> (r.0 matches LinkJump::Navigate { definitions }
            && definitions@ == old(state)@.definitions),
        old(state)@.definitions.len() == 0 ==> (r.0 matches LinkJump::SelectAndAsk { point }
            && point == action.point),
{
    let mut definitions: Vec<LocationLink> = Vec::new();
    std::mem::swap(&mut definitions, &mut state.definitions);
    let notify: bool = state.symbol_range.is_some() || definitions.len() > 0;
    state.symbol_range = None;
    state.task = false;
    assert(state@ =~= unlinked(old(state)@));
    let clear: LinkAction = LinkAction::ClearHighlights { notify };
    if definitions.len() > 0 {
        (LinkJump::Navigate { definitions }, clear)
    } else {
        (LinkJump::SelectAndAsk { point: action.point }, clear)
    }
}

/// Where the mouse moves with the key held, what is there is asked about: in an excerpt of a project,
/// while no name is being changed, outside the symbol that is linked.
pub proof fn key_and_mouse_ask(s: LinkView, site: LinkSite, place: Anchor)
    requires
        s.last_mouse_location != Some(place),
    ensures
        moved(s, site, Some(place), true).1 == (LinkAction::Request { from: place }) <==>
            !site.pending_rename && site.in_excerpt && site.has_project && (
        s.symbol_range matches Some(range) ==> !(range.start.at_most(place) && place.at_most(range.end))),
        moved(s, site, Some(place), true).1 is Nothing || moved(s, site, Some(place), true).1
            == (LinkAction::Request { from: place }),
        moved(s, site, Some(place), true).0.last_mouse_location == Some(place),
        moved(s, site, Some(place), true).0.symbol_range == s.symbol_range,
        moved(s, site, Some(place), true).0.definitions == s.definitions,
        moved(s, site, Some(place), true).0.task == (s.task || moved(s, site, Some(place), true).1
            is Request),
{
}

/// Without the key, or away from the text, a move takes the link away and remembers the place.
pub proof fn link_goes_without_key_or_place(
    s: LinkView,
    site: LinkSite,
    place: Option<Anchor>,
    cmd_held: bool,
)
    requires
        place is None || !cmd_held,
        place is None || place != s.last_mouse_location,
    ensures
        moved(s, site, place, cmd_held).0.last_mouse_location == place,
        moved(s, site, place, cmd_held).0.symbol_range is None,
        moved(s, site, place, cmd_held).0.definitions.len() == 0,
        !moved(s, site, place, cmd_held).0.task,
        moved(s, site, place, cmd_held).1 == (LinkAction::ClearHighlights {
            notify: s.symbol_range is Some || s.definitions.len() > 0,
        }),
{
}

/// A mouse that has not moved changes nothing.
pub proof fn resting_mouse_changes_nothing(
    s: LinkView,
    site: LinkSite,
    place: Anchor,
    cmd_held: bool,
)
    requires
        s.last_mouse_location == Some(place),
    ensures
        moved(s, site, Some(place), cmd_held) == (s, LinkAction::Nothing),
{
}

/// Clearing forgets the symbol, where it leads and the task, and keeps the place of the mouse.
pub proof fn clearing_keeps_the_place(s: LinkView)
    ensures
        cleared(s).0.last_mouse_location == s.last_mouse_location,
        cleared(s).0.symbol_range is None,
        cleared(s).0.definitions.len() == 0,
        !cleared(s).0.task,
        cleared(s).1 == (LinkAction::ClearHighlights { notify: true }) <==> s.symbol_range is Some
            || s.definitions.len() > 0,
{
}

/// The first link that says where it comes from is the one that counts.
pub proof fn first_known_origin_counts(links: Seq<LocationLink>, i: int)
    requires
        0 <= i < links.len(),
        links[i].origin is Some,
        forall|j: int| 0 <= j < i ==> (#[trigger] links[j]).origin is None,
    ensures
        first_origin(links) == links[i].origin,
    decreases links.len(),
{
    if i > 0 {
        assert(links[0].origin is None);
        assert forall|j: int| 0 <= j < i - 1 implies (#[trigger] links.skip(1)[j]).origin is None by {
            assert(links[j + 1].origin is None);
        }
        first_known_origin_counts(links.skip(1), i - 1);
    }
}

/// Links of which none says where it comes from come from nowhere.
pub proof fn unknown_origins_are_none(links: Seq<LocationLink>)
    requires
        forall|j: int| 0 <= j < links.len() ==> (#[trigger] links[j]).origin is None,
    ensures
        first_origin(links) is None,
    decreases links.len(),
{
    if links.len() > 0 {
        assert(links[0].origin is None);
        assert forall|j: int| 0 <= j < links.skip(1).len() implies (#[trigger] links.skip(
            1,
        )[j]).origin is None by {
            assert(links[j + 1].origin is None);
        }
        unknown_origins_are_none(links.skip(1));
    }
}

/// A link leads away from a place if some target lies in another buffer, and does not if every target
/// holds the place.
pub proof fn targets_elsewhere_lead_away(
    links: Seq<LocationLink>,
    buffer: u64,
    text: Seq<u8>,
    offset: usize,
)
    ensures
        (exists|i: int| 0 <= i < links.len() && (#[trigger] links[i]).target.buffer != buffer)
            ==> any_leads_away(links, buffer, text, offset),
        links.len() == 0 ==> !any_leads_away(links, buffer, text, offset),
{
    if exists|i: int| 0 <= i < links.len() && (#[trigger] links[i]).target.buffer != buffer {
        let i = choose|i: int| 0 <= i < links.len() && (#[trigger] links[i]).target.buffer != buffer;
        assert(leads_away(links[i], buffer, text, offset));
    }
}

} // verus!
