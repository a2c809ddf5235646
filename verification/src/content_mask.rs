//! The part of a window in which something may be painted.
use vstd::prelude::*;

verus! {

/// A place in a window.
#[derive(Clone, Copy, Debug, PartialEq, Eq, Structural)]
pub struct Position {
    pub x: i64,
    pub y: i64,
}

/// A size. What is between two places may have a negative one.
#[derive(Clone, Copy, Debug, PartialEq, Eq, Structural)]
pub struct Dimensions {
    pub width: i64,
    pub height: i64,
}

/// A rectangle: it reaches from its origin to the opposite corner, without its right and lower edge.
#[derive(Clone, Copy, Debug, PartialEq, Eq, Structural)]
pub struct Bounds {
    pub origin: Position,
    pub size: Dimensions,
}

impl Bounds {
    /// The x coordinate at which the rectangle ends.
    pub open spec fn right(self) -> int {
        self.origin.x + self.size.width
    }

    /// The y coordinate at which the rectangle ends.
    pub open spec fn bottom(self) -> int {
        self.origin.y + self.size.height
    }

    /// Whether a place is in the rectangle.
    pub open spec fn has(self, p: Position) -> bool {
        self.origin.x <= p.x < self.right() && self.origin.y <= p.y < self.bottom()
    }

    /// Whether the opposite corner can be written down.
    pub open spec fn ends(self) -> bool {
        i64::MIN <= self.right() <= i64::MAX && i64::MIN <= self.bottom() <= i64::MAX
    }
}

/// The greater of two numbers.
pub open spec fn greater(a: int, b: int) -> int {
    if a >= b {
        a
    } else {
        b
    }
}

/// The lesser of two numbers.
pub open spec fn lesser(a: int, b: int) -> int {
    if a <= b {
        a
    } else {
        b
    }
}

/// Whether the common part of two rectangles can be written down.
pub open spec fn can_meet(a: Bounds, b: Bounds) -> bool {
    &&& a.ends()
    &&& b.ends()
    &&& i64::MIN <= lesser(a.right(), b.right()) - greater(a.origin.x as int, b.origin.x as int)
        <= i64::MAX
    &&& i64::MIN <= lesser(a.bottom(), b.bottom()) - greater(a.origin.y as int, b.origin.y as int)
        <= i64::MAX
}

/// The common part of two rectangles.
pub open spec fn common(a: Bounds, b: Bounds) -> Bounds {
    let x = greater(a.origin.x as int, b.origin.x as int);
    let y = greater(a.origin.y as int, b.origin.y as int);
    Bounds {
        origin: Position { x: x as i64, y: y as i64 },
        size: Dimensions {
            width: (lesser(a.right(), b.right()) - x) as i64,
            height: (lesser(a.bottom(), b.bottom()) - y) as i64,
        },
    }
}

/// The part of a window in which something may be painted.
#[derive(Clone, Copy, Debug, PartialEq, Eq, Structural)]
pub struct ContentMask {
    pub bounds: Bounds,
}

impl ContentMask {
    /// The part in which both masks let something be painted.
    pub fn intersect(&self, other: &ContentMask) -> (r: ContentMask)
        requires
            can_meet(self.bounds, other.bounds),
        ensures
            r.bounds == common(self.bounds, other.bounds),
    {
        let a: Bounds = self.bounds;
        let b: Bounds = other.bounds;
        let a_right: i64 = a.origin.x + a.size.width;
        let b_right: i64 = b.origin.x + b.size.width;
        let a_bottom: i64 = a.origin.y + a.size.height;
        let b_bottom: i64 = b.origin.y + b.size.height;
        let x: i64 = if a.origin.x >= b.origin.x {
            a.origin.x
        } else {
            b.origin.x
        };
        let y: i64 = if a.origin.y >= b.origin.y {
            a.origin.y
        } else {
            b.origin.y
        };
        let right: i64 = if a_right <= b_right {
            a_right
        } else {
            b_right
        };
        let bottom: i64 = if a_bottom <= b_bottom {
            a_bottom
        } else {
            b_bottom
        };
        ContentMask {
            bounds: Bounds {
                origin: Position { x, y },
                size: Dimensions { width: right - x, height: bottom - y },
            },
        }
    }
}

/// A place is in the common part of two rectangles exactly if it is in both.
pub proof fn common_part_is_in_both(a: Bounds, b: Bounds, p: Position)
    requires
        can_meet(a, b),
    ensures
        common(a, b).has(p) <==> a.has(p) && b.has(p),
        common(a, b).ends(),
{
}

/// The order of two masks does not matter, and a mask adds nothing to itself.
pub proof fn common_part_is_symmetric(a: Bounds, b: Bounds)
    requires
        can_meet(a, b),
    ensures
        common(a, b) == common(b, a),
        common(a, a) == a,
{
}

/// The masks of the elements around the one that is being painted.
pub struct ContentMaskStack {
    masks: Vec<ContentMask>,
}

impl View for ContentMaskStack {
    type V = Seq<ContentMask>;

    closed spec fn view(&self) -> Seq<ContentMask> {
        self.masks@
    }
}

/// The mask that counts: the innermost, or the whole window.
pub open spec fn current_mask(masks: Seq<ContentMask>, content_size: Dimensions) -> ContentMask {
    if masks.len() > 0 {
        masks.last()
    } else {
        ContentMask { bounds: Bounds { origin: Position { x: 0, y: 0 }, size: content_size } }
    }
}

impl ContentMaskStack {
    /// No masks.
    pub fn new() -> (r: ContentMaskStack)
        ensures
            r@ == Seq::<ContentMask>::empty(),
    {
        ContentMaskStack { masks: Vec::new() }
    }

    /// The mask that counts in a window of a size.
    pub fn content_mask(&self, content_size: Dimensions) -> (r: ContentMask)
        ensures
            r == current_mask(self@, content_size),
    {
        let n: usize = self.masks.len();
        if n > 0 {
            self.masks[n - 1]
        } else {
            ContentMask { bounds: Bounds { origin: Position { x: 0, y: 0 }, size: content_size } }
        }
    }

    /// Goes into an element with a mask of its own, which adds to those around it.
    pub fn push(&mut self, mask: ContentMask, content_size: Dimensions)
        requires
            can_meet(mask.bounds, current_mask(old(self)@, content_size).bounds),
        ensures
            final(self)@ == old(self)@.push(
                ContentMask {
                    bounds: common(
                        mask.bounds,
                        current_mask(old(self)@, content_size).bounds,
                    ),
                },
            ),
    {
        let current: ContentMask = self.content_mask(content_size);
        self.masks.push(mask.intersect(&current));
    }

    /// Comes out of such an element.
    pub fn pop(&mut self) -> (r: Option<ContentMask>)
        ensures
            old(self)@.len() == 0 ==> r is None && final(self)@ == old(self)@,
            old(self)@.len() > 0 ==> r == Some(old(self)@.last()) && final(self)@ == old(
                self,
            )@.drop_last(),
    {
        self.masks.pop()
    }
}

impl Default for ContentMaskStack {
    fn default() -> (r: Self)
        ensures
            r@ == Seq::<ContentMask>::empty(),
    {
        ContentMaskStack::new()
    }
}

/// The mask that was entered last holds, and without one the whole content is shown.
pub proof fn last_mask_holds(masks: Seq<ContentMask>, mask: ContentMask, content_size: Dimensions)
    ensures
        current_mask(masks.push(mask), content_size) == mask,
        current_mask(Seq::empty(), content_size).bounds.origin == (Position { x: 0, y: 0 }),
        current_mask(Seq::empty(), content_size).bounds.size == content_size,
{
}

/// Bounds hold their origin and end before their right and lower edges.
pub proof fn bounds_hold_what_is_in_them(b: Bounds, p: Position)
    ensures
        b.has(p) <==> b.origin.x <= p.x && p.x - b.origin.x < b.size.width && b.origin.y <= p.y && p.y
            - b.origin.y < b.size.height,
{
}

} // verus!
