//! The popover with information about the symbol under the mouse or at the cursor.
use vstd::prelude::*;
use crate::anchor::{Anchor, AnchorRange};
use crate::display_map::DisplayPoint;
use crate::point::Bias;

verus! {

/// How long the mouse rests on a symbol until the popover is shown.
pub const HOVER_DELAY_MILLIS: u64 = 500;

/// How long the mouse rests on a symbol until information is asked for.
pub const HOVER_REQUEST_DELAY_MILLIS: u64 = 250;

/// How long after the popover was hidden the next one is shown at once.
pub const HOVER_GRACE_MILLIS: u64 = 250;

/// The mouse is over a place, or over none.
#[derive(Clone, Copy, Debug, PartialEq, Eq)]
pub struct HoverAt {
    pub point: Option<DisplayPoint>,
}

/// One piece of information about a symbol.
#[derive(Debug)]
pub struct HoverBlock {
    pub text: String,
    pub language: Option<String>,
}

/// Information that is shown next to a place.
#[derive(Debug)]
pub struct HoverPopover {
    pub anchor: Anchor,
    pub contents: Vec<HoverBlock>,
}

/// What a language server knows about a symbol, and the range of the symbol if it tells.
#[derive(Debug)]
pub struct HoverAnswer {
    pub contents: Vec<HoverBlock>,
    pub range: Option<AnchorRange>,
}

/// The state of the popover: what is shown, when it was last hidden (in nanoseconds of the
/// editor's clock), the place that the last request came from, the symbol that it was about, and
/// whether a request is on its way.
#[derive(Debug)]
pub struct HoverState {
    pub popover: Option<HoverPopover>,
    pub hidden_at: Option<u128>,
    pub triggered_from: Option<Anchor>,
    pub symbol_range: Option<AnchorRange>,
    pub task: bool,
}

/// What the editor knows about the place under the mouse: its offset, whether a rename is going
/// on, whether the place is in an excerpt of a buffer, and whether the editor has a project.
#[derive(Clone, Copy, Debug, PartialEq, Eq)]
pub struct HoverSite {
    pub offset: usize,
    pub pending_rename: bool,
    pub in_excerpt: bool,
    pub has_project: bool,
}

/// What happens when the mouse comes to a place.
#[derive(Clone, Copy, Debug, PartialEq, Eq, Structural)]
pub enum HoverStart {
    Nothing,
    Request { anchor: Anchor, delayed: bool },
}

/// How far a request has come.
#[derive(Clone, Copy, Debug, PartialEq, Eq, Structural)]
pub enum HoverStage {
    Started,
    RequestDelayPassed,
    Answered,
    DelayPassed,
}

/// What is to be done next for a request. Both delays begin when the request is started.
#[derive(Clone, Copy, Debug, PartialEq, Eq, Structural)]
pub enum HoverStep {
    StartDelays { request_millis: u64, total_millis: u64 },
    Ask,
    AwaitDelay,
    Show,
}

/// What is to be done on the screen.
#[derive(Clone, Copy, Debug, PartialEq, Eq, Structural)]
pub struct HoverEffect {
    pub highlight: Option<AnchorRange>,
    pub clear_highlights: bool,
    pub notify: bool,
}

/// Whether the popover was hidden so long ago, or never, that the next one has to wait.
pub open spec fn grace_is_over(hidden_at: Option<u128>, now: u128) -> bool {
    match hidden_at {
        Some(hidden) => now >= hidden && (now - hidden) / 1_000_000 > HOVER_GRACE_MILLIS,
        None => true,
    }
}

/// Whether a request has to wait: the popover is not visible, it was not hidden a moment ago, and
/// the request does not come from the keyboard.
pub open spec fn must_wait(s: HoverState, ignore_timeout: bool, now: u128) -> bool {
    s.popover is None && grace_is_over(s.hidden_at, now) && !ignore_timeout
}

/// What happens when the mouse or the cursor is at a place.
pub open spec fn hover_start(
    s: HoverState,
    site: HoverSite,
    ignore_timeout: bool,
    now: u128,
) -> HoverStart {
    let anchor = Anchor { offset: site.offset, bias: Bias::Left };
    let delayed = must_wait(s, ignore_timeout, now);
    if site.pending_rename || !site.in_excerpt || !site.has_project {
        HoverStart::Nothing
    } else if delayed && s.symbol_range is Some && s.symbol_range->0.covers(site.offset) {
        HoverStart::Nothing
    } else if s.triggered_from == Some(anchor) {
        HoverStart::Nothing
    } else {
        HoverStart::Request { anchor, delayed }
    }
}

/// The state after a request has been made from a place.
pub open spec fn requested(s: HoverState, anchor: Anchor) -> HoverState {
    HoverState { task: true, triggered_from: Some(anchor), ..s }
}

/// The state after the popover has been hidden.
pub open spec fn hidden(s: HoverState, now: u128) -> HoverState {
    HoverState {
        popover: None,
        hidden_at: if s.popover is Some {
            Some(now)
        } else {
            s.hidden_at
        },
        triggered_from: None,
        symbol_range: None,
        task: false,
    }
}

/// The range of the symbol that an answer is about.
pub open spec fn answered_range(anchor: Anchor, answer: HoverAnswer) -> AnchorRange {
    match answer.range {
        Some(range) => range,
        None => AnchorRange { start: anchor, end: anchor },
    }
}

/// Hiding what is hidden changes nothing.
pub proof fn hiding_twice_is_hiding_once(s: HoverState, now: u128, later: u128)
    ensures
        hidden(hidden(s, now), later) == hidden(s, now),
{
}

/// A request from the keyboard does not wait, and is made even where the symbol is known.
pub proof fn keyboard_does_not_wait(s: HoverState, site: HoverSite, now: u128)
    requires
        !site.pending_rename,
        site.in_excerpt,
        site.has_project,
        s.triggered_from is None,
    ensures
        hover_start(s, site, true, now) == (HoverStart::Request {
            anchor: Anchor { offset: site.offset, bias: Bias::Left },
            delayed: false,
        }),
{
}

/// Right after the popover was hidden, the next request does not wait.
pub proof fn grace_follows_hiding(s: HoverState, now: u128, later: u128)
    requires
        s.popover is Some,
        now <= later,
        later - now <= 250_000_000,
    ensures
        !must_wait(hidden(s, now), false, later),
{
    assert((later - now) / 1_000_000 <= 250);
}

/// While the mouse stays on a symbol, nothing is asked again.
pub proof fn symbol_is_asked_about_once(s: HoverState, site: HoverSite, now: u128)
    requires
        s.symbol_range is Some,
        s.symbol_range->0.covers(site.offset),
        must_wait(s, false, now),
    ensures
        hover_start(s, site, false, now) is Nothing,
{
}

/// A place is not asked about again, until the hover is hidden or another place was asked about; the
/// answer makes no difference.
pub proof fn place_is_asked_about_once(
    s: HoverState,
    later: HoverState,
    site: HoverSite,
    ignore_timeout: bool,
    again_ignores: bool,
    now: u128,
    then: u128,
)
    requires
        hover_start(s, site, ignore_timeout, now) is Request,
        later.triggered_from == requested(
            s,
            hover_start(s, site, ignore_timeout, now)->anchor,
        ).triggered_from,
    ensures
        hover_start(later, site, again_ignores, then) is Nothing,
{
}

/// A hover that was hidden can be asked about again at the same place.
pub proof fn hidden_place_is_asked_about_again(
    s: HoverState,
    site: HoverSite,
    ignore_timeout: bool,
    now: u128,
    then: u128,
)
    requires
        !site.pending_rename,
        site.in_excerpt,
        site.has_project,
    ensures
        hover_start(hidden(s, now), site, ignore_timeout, then) is Request,
{
}

impl HoverState {
    /// Nothing is shown and nothing was asked for.
    pub fn new() -> (r: HoverState)
        ensures
            r == (HoverState {
                popover: None,
                hidden_at: None,
                triggered_from: None,
                symbol_range: None,
                task: false,
            }),
    {
        HoverState {
            popover: None,
            hidden_at: None,
            triggered_from: None,
            symbol_range: None,
            task: false,
        }
    }

    /// Whether the popover is shown.
    pub fn visible(&self) -> (r: bool)
        ensures
            r == (self.popover is Some),
    {
        self.popover.is_some()
    }
}

impl Default for HoverState {
    fn default() -> (r: Self)
        ensures
            r.popover is None,
            r.hidden_at is None,
            r.triggered_from is None,
            r.symbol_range is None,
            !r.task,
    {
        HoverState::new()
    }
}

/// Hides the popover and forgets what was asked; tells whether it was shown.
pub fn hide_hover(state: &mut HoverState, now: u128) -> (did_hide: bool)
    ensures
        *final(state) == hidden(*old(state), now),
        did_hide == (old(state).popover is Some),
{
    let mut did_hide: bool = false;
    if state.popover.is_some() {
        state.popover = None;
        state.hidden_at = Some(now);
        did_hide = true;
    }
    state.task = false;
    state.triggered_from = None;
    state.symbol_range = None;
    did_hide
}

/// Decides what happens when the mouse or the cursor is at a place; `ignore_timeout` is set for
/// the keyboard.
pub fn show_hover(
    state: &mut HoverState,
    site: &HoverSite,
    ignore_timeout: bool,
    now: u128,
) -> (r: HoverStart)
    ensures
        r == hover_start(*old(state), *site, ignore_timeout, now),
        *final(state) == (if r is Nothing {
            *old(state)
        } else {
            requested(*old(state), r->anchor)
        }),
{
    if site.pending_rename || !site.in_excerpt || !site.has_project {
        return HoverStart::Nothing;
    }
    let grace_over: bool = match state.hidden_at {
        Some(hidden) => now >= hidden && (now - hidden) / 1_000_000 > HOVER_GRACE_MILLIS as u128,
        None => true,
    };
    let delayed: bool = state.popover.is_none() && grace_over && !ignore_timeout;
    if delayed {
        if let Some(range) = state.symbol_range {
            if range.start.offset <= site.offset && site.offset < range.end.offset {
                return HoverStart::Nothing;
            }
        }
    }
    let anchor: Anchor = Anchor::before(site.offset);
    if let Some(triggered_from) = state.triggered_from {
        if triggered_from == anchor {
            return HoverStart::Nothing;
        }
    }
    state.task = true;
    state.triggered_from = Some(anchor);
    HoverStart::Request { anchor, delayed }
}

/// Dispatches between showing and hiding, depending on whether the mouse is over a place. `site`
/// tells about that place.
pub fn hover_at(state: &mut HoverState, action: &HoverAt, site: &HoverSite, now: u128) -> (r: (
    HoverStart,
    bool,
))
    ensures
        action.point is Some ==> {
            &&& r == (hover_start(*old(state), *site, false, now), false)
            &&& *final(state) == (if r.0 is Nothing {
                *old(state)
            } else {
                requested(*old(state), r.0->anchor)
            })
        },
        action.point is None ==> {
            &&& r == (HoverStart::Nothing, old(state).popover is Some)
            &&& *final(state) == hidden(*old(state), now)
        },
{
    if action.point.is_some() {
        (show_hover(state, site, false, now), false)
    } else {
        let did_hide: bool = hide_hover(state, now);
        (HoverStart::Nothing, did_hide)
    }
}

/// What is to be done next for a request.
pub fn next_step(delayed: bool, stage: HoverStage) -> (r: HoverStep)
    ensures
        r == match stage {
            HoverStage::Started => if delayed {
                HoverStep::StartDelays { request_millis: 250, total_millis: 500 }
            } else {
                HoverStep::Ask
            },
            HoverStage::RequestDelayPassed => HoverStep::Ask,
            HoverStage::Answered => if delayed {
                HoverStep::AwaitDelay
            } else {
                HoverStep::Show
            },
            HoverStage::DelayPassed => HoverStep::Show,
        },
{
    match stage {
        HoverStage::Started => if delayed {
            HoverStep::StartDelays {
                request_millis: HOVER_REQUEST_DELAY_MILLIS,
                total_millis: HOVER_DELAY_MILLIS,
            }
        } else {
            HoverStep::Ask
        },
        HoverStage::RequestDelayPassed => HoverStep::Ask,
        HoverStage::Answered => if delayed {
            HoverStep::AwaitDelay
        } else {
            HoverStep::Show
        },
        HoverStage::DelayPassed => HoverStep::Show,
    }
}

/// Makes a popover of an answer; an answer without contents makes none. The range of the symbol is
/// remembered, so that nothing more is asked about it.
pub fn take_answer(state: &mut HoverState, anchor: Anchor, answer: Option<HoverAnswer>) -> (r:
    Option<HoverPopover>)
    ensures
        match answer {
            Some(a) => if a.contents@.len() > 0 {
                &&& r == Some(
                    HoverPopover { anchor: answered_range(anchor, a).start, contents: a.contents },
                )
                &&& *final(state) == HoverState {
                    symbol_range: Some(answered_range(anchor, a)),
                    ..*old(state)
                }
            } else {
                r is None && *final(state) == *old(state)
            },
            None => r is None && *final(state) == *old(state),
        },
{
    match answer {
        Some(a) => {
            if a.contents.len() == 0 {
                return None;
            }
            let range: AnchorRange = match a.range {
                Some(range) => range,
                None => AnchorRange { start: anchor, end: anchor },
            };
            state.symbol_range = Some(range);
            Some(HoverPopover { anchor: range.start, contents: a.contents })
        },
        None => None,
    }
}

/// Shows the popover that an answer made, with its symbol highlighted, or dismisses the one that is
/// shown; where none is, the symbol is forgotten.
pub fn finish_hover(state: &mut HoverState, popover: Option<HoverPopover>, now: u128) -> (r:
    HoverEffect)
    ensures
        popover is Some ==> {
            &&& *final(state) == HoverState { popover, ..*old(state) }
            &&& r == HoverEffect {
                highlight: old(state).symbol_range,
                clear_highlights: false,
                notify: true,
            }
        },
        popover is None && old(state).popover is Some ==> {
            &&& *final(state) == hidden(*old(state), now)
            &&& r == HoverEffect { highlight: None, clear_highlights: true, notify: true }
        },
        popover is None && old(state).popover is None ==> {
            &&& *final(state) == HoverState { symbol_range: None, ..*old(state) }
            &&& r == HoverEffect { highlight: None, clear_highlights: false, notify: false }
        },
{
    if popover.is_some() {
        let highlight: Option<AnchorRange> = state.symbol_range;
        state.popover = popover;
        HoverEffect { highlight, clear_highlights: false, notify: true }
    } else if state.visible() {
        let notify: bool = hide_hover(state, now);
        HoverEffect { highlight: None, clear_highlights: true, notify }
    } else {
        state.symbol_range = None;
        HoverEffect { highlight: None, clear_highlights: false, notify: false }
    }
}

/// A part of a text that a language knows, and the number of its style if the theme has one for it.
#[derive(Clone, Copy, Debug, PartialEq, Eq)]
pub struct SyntaxRun {
    pub start: usize,
    pub end: usize,
    pub style: Option<u32>,
}

/// A part of a text that is shown in a style.
#[derive(Clone, Copy, Debug, PartialEq, Eq)]
pub struct StyledRun {
    pub start: usize,
    pub end: usize,
    pub style: u32,
}

/// How a piece of information is shown: as code with its parts in their styles, or as prose.
#[derive(Debug, PartialEq, Eq)]
pub enum PopoverText {
    Code { highlights: Vec<StyledRun> },
    Prose,
}

/// The parts that have a style.
pub open spec fn styled_runs(runs: Seq<SyntaxRun>) -> Seq<StyledRun>
    decreases runs.len(),
{
    if runs.len() == 0 {
        Seq::empty()
    } else {
        let before = styled_runs(runs.drop_last());
        match runs.last().style {
            Some(style) => before.push(
                StyledRun { start: runs.last().start, end: runs.last().end, style },
            ),
            None => before,
        }
    }
}

/// Whether a piece of information is shown as it should: as code if it tells its language, and that
/// language is known.
pub open spec fn shown_as(
    block: HoverBlock,
    runs: Option<Vec<SyntaxRun>>,
    shown: PopoverText,
) -> bool {
    match shown {
        PopoverText::Code { highlights } => {
            &&& block.language is Some
            &&& runs matches Some(runs)
            &&& highlights@ == styled_runs(runs@)
        },
        PopoverText::Prose => block.language is None || runs is None,
    }
}

fn style_runs(runs: &Vec<SyntaxRun>) -> (r: Vec<StyledRun>)
    ensures
        r@ == styled_runs(runs@),
{
    let mut r: Vec<StyledRun> = Vec::new();
    let mut i: usize = 0;
    assert(runs@.take(0) =~= Seq::empty());
    while i < runs.len()
        invariant
            i <= runs@.len(),
            r@ == styled_runs(runs@.take(i as int)),
        decreases runs.len() - i,
    {
        assert(runs@.take(i + 1).drop_last() =~= runs@.take(i as int));
        let run: SyntaxRun = runs[i];
        if let Some(style) = run.style {
            r.push(StyledRun { start: run.start, end: run.end, style });
        }
        i += 1;
    }
    assert(runs@.take(i as int) =~= runs@);
    r
}

impl HoverPopover {
    /// Tells how each piece of information is shown. `runs` has the parts of each text in its
    /// language, or nothing where the language is not known.
    pub fn render(&self, runs: &Vec<Option<Vec<SyntaxRun>>>) -> (r: Vec<PopoverText>)
        requires
            runs@.len() == self.contents@.len(),
        ensures
            r@.len() == self.contents@.len(),
            forall|i: int|
                0 <= i < r@.len() ==> shown_as(self.contents@[i], runs@[i], #[trigger] r@[i]),
    {
        let mut r: Vec<PopoverText> = Vec::new();
        let mut i: usize = 0;
        while i < self.contents.len()
            invariant
                i <= self.contents@.len(),
                runs@.len() == self.contents@.len(),
                r@.len() == i,
                forall|k: int|
                    0 <= k < i ==> shown_as(self.contents@[k], runs@[k], #[trigger] r@[k]),
            decreases self.contents.len() - i,
        {
            let shown: PopoverText = match &runs[i] {
                Some(list) => if self.contents[i].language.is_some() {
                    PopoverText::Code { highlights: style_runs(list) }
                } else {
                    PopoverText::Prose
                },
                None => PopoverText::Prose,
            };
            r.push(shown);
            i += 1;
        }
        r
    }
}

/// A place is asked about where the editor takes no new name, in an excerpt of a project, unless it
/// was asked about already, or the mouse would have to wait inside a symbol that is known.
pub proof fn places_are_asked_about(
    s: HoverState,
    site: HoverSite,
    ignore_timeout: bool,
    now: u128,
)
    ensures
        hover_start(s, site, ignore_timeout, now) is Request <==> !site.pending_rename
            && site.in_excerpt && site.has_project && !(s.triggered_from matches Some(from)
            && from.offset == site.offset && from.bias is Left) && (s.symbol_range matches Some(range)
            ==> site.offset < range.start.offset || site.offset >= range.end.offset || s.popover is Some
            || ignore_timeout || (s.hidden_at matches Some(hidden) && now < hidden + 251_000_000)),
        hover_start(s, site, ignore_timeout, now) matches HoverStart::Request { anchor, delayed }
            ==> anchor.offset == site.offset && anchor.bias is Left,
{
}

/// What is asked for waits if nothing is shown, nothing was hidden a moment ago, and it was the mouse
/// that asked.
pub proof fn mouse_waits_unless_it_was_just_shown(
    s: HoverState,
    site: HoverSite,
    ignore_timeout: bool,
    now: u128,
)
    requires
        hover_start(s, site, ignore_timeout, now) is Request,
    ensures
        ignore_timeout ==> !hover_start(s, site, ignore_timeout, now)->delayed,
        s.popover is Some ==> !hover_start(s, site, ignore_timeout, now)->delayed,
        s.hidden_at matches Some(hidden) && now < hidden + 251_000_000 ==> !hover_start(
            s,
            site,
            ignore_timeout,
            now,
        )->delayed,
        !ignore_timeout && s.popover is None && s.hidden_at is None ==> hover_start(
            s,
            site,
            ignore_timeout,
            now,
        )->delayed,
        !ignore_timeout && s.popover is None && (s.hidden_at matches Some(hidden) && now >= hidden
            + 251_000_000) ==> hover_start(s, site, ignore_timeout, now)->delayed,
{
}

/// Asking notes the place and the task, and leaves the rest.
pub proof fn asking_is_noted(s: HoverState, anchor: Anchor)
    ensures
        requested(s, anchor).task,
        requested(s, anchor).triggered_from == Some(anchor),
        requested(s, anchor).popover == s.popover,
        requested(s, anchor).hidden_at == s.hidden_at,
        requested(s, anchor).symbol_range == s.symbol_range,
{
}

/// Hiding leaves nothing shown, asked about or known, and notes the time only if something was shown.
pub proof fn hiding_forgets(s: HoverState, now: u128)
    ensures
        hidden(s, now).popover is None,
        hidden(s, now).triggered_from is None,
        hidden(s, now).symbol_range is None,
        !hidden(s, now).task,
        s.popover is Some ==> hidden(s, now).hidden_at == Some(now),
        s.popover is None ==> hidden(s, now).hidden_at == s.hidden_at,
{
}

/// An answer without a range is about the place alone.
pub proof fn answer_is_about_its_range(anchor: Anchor, answer: HoverAnswer)
    ensures
        answer.range is Some ==> Some(answered_range(anchor, answer)) == answer.range,
        answer.range is None ==> answered_range(anchor, answer).start == anchor && answered_range(
            anchor,
            answer,
        ).end == anchor,
{
}

/// Runs of a text that is cut in two are styled piece by piece.
pub proof fn runs_are_styled_piece_by_piece(front: Seq<SyntaxRun>, back: Seq<SyntaxRun>)
    ensures
        styled_runs(front + back) == styled_runs(front) + styled_runs(back),
    decreases back.len(),
{
    if back.len() == 0 {
        assert(front + back == front);
    } else {
        runs_are_styled_piece_by_piece(front, back.drop_last());
        assert((front + back).drop_last() == front + back.drop_last());
    }
}

/// A run that has a style keeps its ends and its style; one that has none is left out.
pub proof fn run_keeps_its_ends_and_style(run: SyntaxRun)
    ensures
        run.style matches Some(style) ==> styled_runs(seq![run]).len() == 1 && styled_runs(
            seq![run],
        )[0].start == run.start && styled_runs(seq![run])[0].end == run.end && styled_runs(
            seq![run],
        )[0].style == style,
        run.style is None ==> styled_runs(seq![run]).len() == 0,
{
    assert(seq![run].drop_last() == Seq::<SyntaxRun>::empty());
    reveal_with_fuel(styled_runs, 2);
}

/// A block is shown as code if it has a language that is known, else as prose.
pub proof fn known_language_is_shown_as_code(
    block: HoverBlock,
    runs: Option<Vec<SyntaxRun>>,
    shown: PopoverText,
)
    requires
        shown_as(block, runs, shown),
    ensures
        shown is Code <==> block.language is Some && runs is Some,
        shown is Prose <==> block.language is None || runs is None,
        shown matches PopoverText::Code { highlights } ==> (runs matches Some(runs) && highlights@
            == styled_runs(runs@)),
{
}

} // verus!
