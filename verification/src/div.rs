//! A box that holds other elements.
use vstd::prelude::*;
use std::marker::PhantomData;
use crate::content_mask::Position;
use crate::window_handle::{ElementId, ElementIdView};

verus! {

/// Marks a box that has a name.
pub struct HasId;

/// What becomes of content that is larger than its box.
#[derive(Clone, Copy, Debug, PartialEq, Eq, Structural)]
pub enum Overflow {
    Visible,
    Hidden,
    Scroll,
}

/// What becomes of larger content along both axes.
#[derive(Clone, Copy, Debug, PartialEq, Eq, Structural)]
pub struct OverflowStyle {
    pub x: Overflow,
    pub y: Overflow,
}

/// A box, which is told its name at most once.
pub struct Div<I> {
    id: Option<ElementId>,
    z_index: Option<u32>,
    overflow: OverflowStyle,
    scroll_state: Option<Position>,
    identified: PhantomData<I>,
}

/// The meaning of a box.
pub struct DivView {
    pub id: Option<ElementIdView>,
    pub z_index: Option<u32>,
    pub overflow: OverflowStyle,
    pub scroll_state: Option<Position>,
}

impl<I> View for Div<I> {
    type V = DivView;

    closed spec fn view(&self) -> DivView {
        DivView {
            id: match self.id {
                Some(id) => Some(id@),
                None => None,
            },
            z_index: self.z_index,
            overflow: self.overflow,
            scroll_state: self.scroll_state,
        }
    }
}

/// A box without a name, a level or scrolling.
pub fn div() -> (r: Div<()>)
    ensures
        r@ == (DivView {
            id: None,
            z_index: None,
            overflow: OverflowStyle { x: Overflow::Visible, y: Overflow::Visible },
            scroll_state: None,
        }),
{
    Div {
        id: None,
        z_index: None,
        overflow: OverflowStyle { x: Overflow::Visible, y: Overflow::Visible },
        scroll_state: None,
        identified: PhantomData,
    }
}

/// Whether a box that scrolls knows how far.
pub open spec fn can_scroll(d: DivView) -> bool {
    (d.overflow.x is Scroll || d.overflow.y is Scroll) ==> d.scroll_state is Some
}

/// How far the content of a box is scrolled along the axes along which it scrolls.
pub open spec fn scrolled_by(d: DivView) -> Position {
    Position {
        x: if d.overflow.x is Scroll {
            d.scroll_state->0.x
        } else {
            0
        },
        y: if d.overflow.y is Scroll {
            d.scroll_state->0.y
        } else {
            0
        },
    }
}

impl Div<()> {
    /// The box with a name.
    pub fn id(self, id: ElementId) -> (r: Div<HasId>)
        ensures
            r@ == (DivView { id: Some(id@), ..self@ }),
    {
        Div {
            id: Some(id),
            z_index: self.z_index,
            overflow: self.overflow,
            scroll_state: self.scroll_state,
            identified: PhantomData,
        }
    }
}

impl<I> Div<I> {
    /// The box at a level.
    pub fn z_index(self, z_index: u32) -> (r: Div<I>)
        ensures
            r@ == (DivView { z_index: Some(z_index), ..self@ }),
    {
        Div {
            id: self.id,
            z_index: Some(z_index),
            overflow: self.overflow,
            scroll_state: self.scroll_state,
            identified: PhantomData,
        }
    }

    fn with_overflow(self, overflow: OverflowStyle) -> (r: Div<I>)
        ensures
            r@ == (DivView { overflow, ..self@ }),
    {
        Div {
            id: self.id,
            z_index: self.z_index,
            overflow,
            scroll_state: self.scroll_state,
            identified: PhantomData,
        }
    }

    fn with_scroll_state(self, scroll_state: Position) -> (r: Div<I>)
        ensures
            r@ == (DivView { scroll_state: Some(scroll_state), ..self@ }),
    {
        Div {
            id: self.id,
            z_index: self.z_index,
            overflow: self.overflow,
            scroll_state: Some(scroll_state),
            identified: PhantomData,
        }
    }

    /// The box, which cuts larger content off.
    pub fn overflow_hidden(self) -> (r: Div<I>)
        ensures
            r@ == (DivView {
                overflow: OverflowStyle { x: Overflow::Hidden, y: Overflow::Hidden },
                ..self@
            }),
    {
        self.with_overflow(OverflowStyle { x: Overflow::Hidden, y: Overflow::Hidden })
    }

    /// The box, which cuts wider content off.
    pub fn overflow_hidden_x(self) -> (r: Div<I>)
        ensures
            r@ == (DivView {
                overflow: OverflowStyle { x: Overflow::Hidden, ..self@.overflow },
                ..self@
            }),
    {
        let y: Overflow = self.overflow.y;
        self.with_overflow(OverflowStyle { x: Overflow::Hidden, y })
    }

    /// The box, which cuts higher content off.
    pub fn overflow_hidden_y(self) -> (r: Div<I>)
        ensures
            r@ == (DivView {
                overflow: OverflowStyle { y: Overflow::Hidden, ..self@.overflow },
                ..self@
            }),
    {
        let x: Overflow = self.overflow.x;
        self.with_overflow(OverflowStyle { x, y: Overflow::Hidden })
    }

    /// The box, which scrolls larger content.
    pub fn overflow_scroll(self, scroll_state: Position) -> (r: Div<I>)
        ensures
            r@ == (DivView {
                overflow: OverflowStyle { x: Overflow::Scroll, y: Overflow::Scroll },
                scroll_state: Some(scroll_state),
                ..self@
            }),
            can_scroll(r@),
    {
        self.with_scroll_state(scroll_state).with_overflow(
            OverflowStyle { x: Overflow::Scroll, y: Overflow::Scroll },
        )
    }

    /// The box, which scrolls wider content.
    pub fn overflow_x_scroll(self, scroll_state: Position) -> (r: Div<I>)
        ensures
            r@ == (DivView {
                overflow: OverflowStyle { x: Overflow::Scroll, ..self@.overflow },
                scroll_state: Some(scroll_state),
                ..self@
            }),
            can_scroll(r@),
    {
        let y: Overflow = self.overflow.y;
        self.with_scroll_state(scroll_state).with_overflow(OverflowStyle { x: Overflow::Scroll, y })
    }

    /// The box, which scrolls higher content.
    pub fn overflow_y_scroll(self, scroll_state: Position) -> (r: Div<I>)
        ensures
            r@ == (DivView {
                overflow: OverflowStyle { y: Overflow::Scroll, ..self@.overflow },
                scroll_state: Some(scroll_state),
                ..self@
            }),
            can_scroll(r@),
    {
        let x: Overflow = self.overflow.x;
        self.with_scroll_state(scroll_state).with_overflow(OverflowStyle { x, y: Overflow::Scroll })
    }

    /// How far the content is scrolled.
    pub fn scroll_offset(&self) -> (r: Position)
        requires
            can_scroll(self@),
        ensures
            r == scrolled_by(self@),
    {
        let (sx, sy): (i64, i64) = match self.scroll_state {
            Some(state) => (state.x, state.y),
            None => (0, 0),
        };
        Position {
            x: match self.overflow.x {
                Overflow::Scroll => sx,
                _ => 0,
            },
            y: match self.overflow.y {
                Overflow::Scroll => sy,
                _ => 0,
            },
        }
    }

    /// The level of the box itself and that of its content, which is the next one.
    pub fn levels(&self) -> (r: (u32, u32))
        requires
            self@.z_index matches Some(z) ==> z < u32::MAX,
        ensures
            r.0 == (match self@.z_index {
                Some(z) => z,
                None => 0,
            }),
            r.1 == r.0 + 1,
    {
        let z: u32 = match self.z_index {
            Some(z) => z,
            None => 0,
        };
        (z, z + 1)
    }
}

/// A div scrolls along an axis if its overflow scrolls there, by as much as its state says.
pub proof fn axes_scroll_on_their_own(d: DivView)
    requires
        d.scroll_state is Some,
    ensures
        can_scroll(d),
        d.overflow.x is Scroll ==> scrolled_by(d).x == d.scroll_state->0.x,
        d.overflow.y is Scroll ==> scrolled_by(d).y == d.scroll_state->0.y,
        !(d.overflow.x is Scroll) ==> scrolled_by(d).x == 0,
        !(d.overflow.y is Scroll) ==> scrolled_by(d).y == 0,
{
}

/// A div without a state can stand still, and only so.
pub proof fn scrolling_needs_a_state(d: DivView)
    requires
        d.scroll_state is None,
    ensures
        can_scroll(d) <==> !(d.overflow.x is Scroll) && !(d.overflow.y is Scroll),
{
}

} // verus!
