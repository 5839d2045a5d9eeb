//! Lengths, points and rectangles in app units.
//!
//! An app unit is one sixtieth of a pixel, held in 32 bits. Sums, differences
//! and products of app units wrap around at 32 bits, so every operation here is
//! total; where the exact result fits in 32 bits it is the result.

use vstd::prelude::*;

verus! {

/// App units in one pixel.
pub const AU_PER_PX: i32 = 60;

/// The 32-bit two's complement value that `v` wraps to.
#[verifier::opaque]
pub open spec fn wrap(v: int) -> i32 {
    if v % 0x1_0000_0000 > i32::MAX {
        (v % 0x1_0000_0000 - 0x1_0000_0000) as i32
    } else {
        (v % 0x1_0000_0000) as i32
    }
}

/// A value that fits in 32 bits wraps to itself.
pub proof fn lemma_wrap_in_range(v: int)
    requires
        i32::MIN <= v <= i32::MAX,
    ensures
        wrap(v) == v,
{
    reveal(wrap);
    if v >= 0 {
        assert(v % 0x1_0000_0000 == v);
    } else {
        assert((v + 0x1_0000_0000) % 0x1_0000_0000 == v + 0x1_0000_0000);
        assert(v % 0x1_0000_0000 == v + 0x1_0000_0000);
    }
}

/// The whole number nearest to `au / 60`, a tie going away from zero.
pub open spec fn nearest_px(au: int) -> int {
    if au >= 0 {
        (au + 30) / 60
    } else {
        -((30 - au) / 60)
    }
}

/// A length in app units.
#[derive(Clone, Copy, Debug, PartialEq, Eq, Structural)]
pub struct Au(pub i32);

impl Au {
    pub open spec fn add_spec(self, other: Au) -> Au {
        Au(wrap(self.0 + other.0))
    }

    pub open spec fn sub_spec(self, other: Au) -> Au {
        Au(wrap(self.0 - other.0))
    }

    pub open spec fn scale_spec(self, factor: i32) -> Au {
        Au(wrap(self.0 * factor))
    }

    pub open spec fn min_spec(self, other: Au) -> Au {
        if self.0 <= other.0 {
            self
        } else {
            other
        }
    }

    pub open spec fn max_spec(self, other: Au) -> Au {
        if self.0 >= other.0 {
            self
        } else {
            other
        }
    }

    pub fn zero() -> (r: Au)
        ensures
            r == Au(0),
    {
        Au(0)
    }

    /// The length of `px` whole pixels.
    pub fn from_px(px: i32) -> (r: Au)
        ensures
            r == Au(wrap(px * 60)),
    {
        proof {
            reveal(wrap);
        }
        Au(px.wrapping_mul(AU_PER_PX))
    }

    /// This length in whole pixels, rounded to the nearest.
    pub fn to_nearest_px(self) -> (px: i32)
        ensures
            px == nearest_px(self.0 as int),
            -30 <= 60 * px - self.0 <= 30,
    {
        let v: i64 = self.0 as i64;
        if v >= 0 {
            let q: i64 = (v + 30) / 60;
            q as i32
        } else {
            let q: i64 = (30 - v) / 60;
            (-q) as i32
        }
    }

    pub fn add(self, other: Au) -> (r: Au)
        ensures
            r == self.add_spec(other),
    {
        proof {
            reveal(wrap);
        }
        Au(self.0.wrapping_add(other.0))
    }

    pub fn sub(self, other: Au) -> (r: Au)
        ensures
            r == self.sub_spec(other),
    {
        proof {
            reveal(wrap);
        }
        Au(self.0.wrapping_sub(other.0))
    }

    /// This length taken `factor` times.
    pub fn scale(self, factor: i32) -> (r: Au)
        ensures
            r == self.scale_spec(factor),
    {
        proof {
            reveal(wrap);
        }
        Au(self.0.wrapping_mul(factor))
    }

    pub fn min(self, other: Au) -> (r: Au)
        ensures
            r == self.min_spec(other),
    {
        if self.0 <= other.0 {
            self
        } else {
            other
        }
    }

    pub fn max(self, other: Au) -> (r: Au)
        ensures
            r == self.max_spec(other),
    {
        if self.0 >= other.0 {
            self
        } else {
            other
        }
    }
}

/// A sum that fits in 32 bits is the exact sum, and likewise a difference.
pub proof fn lemma_au_exact(a: Au, b: Au)
    ensures
        i32::MIN <= a.0 + b.0 <= i32::MAX ==> a.add_spec(b).0 == a.0 + b.0,
        i32::MIN <= a.0 - b.0 <= i32::MAX ==> a.sub_spec(b).0 == a.0 - b.0,
{
    if i32::MIN <= a.0 + b.0 <= i32::MAX {
        lemma_wrap_in_range(a.0 + b.0);
    }
    if i32::MIN <= a.0 - b.0 <= i32::MAX {
        lemma_wrap_in_range(a.0 - b.0);
    }
}

#[derive(Clone, Copy, Debug, PartialEq, Eq, Structural)]
pub struct Point2D {
    pub x: Au,
    pub y: Au,
}

impl Point2D {
    pub open spec fn add_spec(self, other: Point2D) -> Point2D {
        Point2D { x: self.x.add_spec(other.x), y: self.y.add_spec(other.y) }
    }

    pub fn new(x: Au, y: Au) -> (p: Point2D)
        ensures
            p == (Point2D { x, y }),
    {
        Point2D { x, y }
    }

    pub fn zero() -> (p: Point2D)
        ensures
            p == (Point2D { x: Au(0), y: Au(0) }),
    {
        Point2D { x: Au(0), y: Au(0) }
    }

    /// This point moved by `other`, taken as an offset.
    pub fn add(self, other: Point2D) -> (p: Point2D)
        ensures
            p == self.add_spec(other),
    {
        Point2D { x: self.x.add(other.x), y: self.y.add(other.y) }
    }
}

#[derive(Clone, Copy, Debug, PartialEq, Eq, Structural)]
pub struct Size2D {
    pub width: Au,
    pub height: Au,
}

impl Size2D {
    pub fn new(width: Au, height: Au) -> (s: Size2D)
        ensures
            s == (Size2D { width, height }),
    {
        Size2D { width, height }
    }
}

/// A rectangle, given by its top left corner and its size.
#[derive(Clone, Copy, Debug, PartialEq, Eq, Structural)]
pub struct Rect {
    pub origin: Point2D,
    pub size: Size2D,
}

impl Rect {
    /// The right edge: one past the last column the rectangle covers.
    pub open spec fn max_x_spec(self) -> Au {
        self.origin.x.add_spec(self.size.width)
    }

    /// The bottom edge: one past the last row the rectangle covers.
    pub open spec fn max_y_spec(self) -> Au {
        self.origin.y.add_spec(self.size.height)
    }

    /// The smallest rectangle whose corners are the least of the two top left
    /// corners and the greatest of the two bottom right corners.
    pub open spec fn union_spec(self, other: Rect) -> Rect {
        let left = self.origin.x.min_spec(other.origin.x);
        let top = self.origin.y.min_spec(other.origin.y);
        let right = self.max_x_spec().max_spec(other.max_x_spec());
        let bottom = self.max_y_spec().max_spec(other.max_y_spec());
        Rect {
            origin: Point2D { x: left, y: top },
            size: Size2D { width: right.sub_spec(left), height: bottom.sub_spec(top) },
        }
    }

    pub open spec fn translate_spec(self, by: Point2D) -> Rect {
        Rect { origin: self.origin.add_spec(by), size: self.size }
    }

    /// Whether the two rectangles share a point, each taken half-open.
    pub open spec fn intersects_spec(self, other: Rect) -> bool {
        &&& self.origin.x.0 < other.max_x_spec().0
        &&& other.origin.x.0 < self.max_x_spec().0
        &&& self.origin.y.0 < other.max_y_spec().0
        &&& other.origin.y.0 < self.max_y_spec().0
    }

    /// Whether `(x, y)` lies in the rectangle: on or after the left and top
    /// edges, and strictly before the right and bottom edges.
    pub open spec fn contains_spec(self, x: Au, y: Au) -> bool {
        &&& self.origin.x.0 <= x.0
        &&& x.0 < self.max_x_spec().0
        &&& self.origin.y.0 <= y.0
        &&& y.0 < self.max_y_spec().0
    }

    /// Whether every sum and difference that `union` takes of the two
    /// rectangles fits in 32 bits.
    pub open spec fn union_is_exact(self, other: Rect) -> bool {
        let left = if self.origin.x.0 <= other.origin.x.0 { self.origin.x.0 } else { other.origin.x.0 };
        let top = if self.origin.y.0 <= other.origin.y.0 { self.origin.y.0 } else { other.origin.y.0 };
        &&& self.origin.x.0 + self.size.width.0 <= i32::MAX
        &&& other.origin.x.0 + other.size.width.0 <= i32::MAX
        &&& self.origin.y.0 + self.size.height.0 <= i32::MAX
        &&& other.origin.y.0 + other.size.height.0 <= i32::MAX
        &&& self.size.width.0 >= 0 && self.size.height.0 >= 0
        &&& other.size.width.0 >= 0 && other.size.height.0 >= 0
        &&& self.origin.x.0 + self.size.width.0 - left <= i32::MAX
        &&& other.origin.x.0 + other.size.width.0 - left <= i32::MAX
        &&& self.origin.y.0 + self.size.height.0 - top <= i32::MAX
        &&& other.origin.y.0 + other.size.height.0 - top <= i32::MAX
    }

    pub fn new(origin: Point2D, size: Size2D) -> (r: Rect)
        ensures
            r == (Rect { origin, size }),
    {
        Rect { origin, size }
    }

    /// The empty rectangle at the origin.
    pub fn zero() -> (r: Rect)
        ensures
            r == (Rect {
                origin: Point2D { x: Au(0), y: Au(0) },
                size: Size2D { width: Au(0), height: Au(0) },
            }),
    {
        Rect { origin: Point2D::zero(), size: Size2D { width: Au(0), height: Au(0) } }
    }

    pub fn max_x(&self) -> (r: Au)
        ensures
            r == self.max_x_spec(),
    {
        self.origin.x.add(self.size.width)
    }

    pub fn max_y(&self) -> (r: Au)
        ensures
            r == self.max_y_spec(),
    {
        self.origin.y.add(self.size.height)
    }

    pub fn union(&self, other: &Rect) -> (r: Rect)
        ensures
            r == self.union_spec(*other),
    {
        let left = self.origin.x.min(other.origin.x);
        let top = self.origin.y.min(other.origin.y);
        let right = self.max_x().max(other.max_x());
        let bottom = self.max_y().max(other.max_y());
        Rect {
            origin: Point2D { x: left, y: top },
            size: Size2D { width: right.sub(left), height: bottom.sub(top) },
        }
    }

    /// This rectangle moved by `by`; its size stays.
    pub fn translate(&self, by: &Point2D) -> (r: Rect)
        ensures
            r == self.translate_spec(*by),
    {
        Rect { origin: self.origin.add(*by), size: self.size }
    }

    pub fn intersects(&self, other: &Rect) -> (b: bool)
        ensures
            b == self.intersects_spec(*other),
    {
        self.origin.x.0 < other.max_x().0 && other.origin.x.0 < self.max_x().0
            && self.origin.y.0 < other.max_y().0 && other.origin.y.0 < self.max_y().0
    }

    pub fn contains(&self, x: Au, y: Au) -> (b: bool)
        ensures
            b == self.contains_spec(x, y),
    {
        x.0 < self.max_x().0 && self.origin.x.0 <= x.0 && y.0 < self.max_y().0
            && self.origin.y.0 <= y.0
    }
}

/// Taking a length off a sum that it is part of leaves the other part, also
/// where the sum wraps.
pub proof fn lemma_add_then_sub(a: Au, b: Au)
    ensures
        a.add_spec(b).sub_spec(a) == b,
{
    reveal(wrap);
}

/// Taking the union of two rectangles in either order gives the same
/// rectangle, and the union of a rectangle with itself is the rectangle.
pub proof fn lemma_union_commutes(a: Rect, b: Rect)
    ensures
        a.union_spec(b) == b.union_spec(a),
        a.union_spec(a) == a,
{
    lemma_add_then_sub(a.origin.x, a.size.width);
    lemma_add_then_sub(a.origin.y, a.size.height);
}

/// Where nothing wraps, the union reaches from the least left and top edges
/// to the greatest right and bottom edges, so it covers both rectangles.
pub proof fn lemma_union_covers(a: Rect, b: Rect)
    requires
        a.union_is_exact(b),
    ensures
        ({
            let u = a.union_spec(b);
            &&& u.origin.x.0 <= a.origin.x.0 && u.origin.x.0 <= b.origin.x.0
            &&& u.origin.y.0 <= a.origin.y.0 && u.origin.y.0 <= b.origin.y.0
            &&& (u.origin.x.0 == a.origin.x.0 || u.origin.x.0 == b.origin.x.0)
            &&& (u.origin.y.0 == a.origin.y.0 || u.origin.y.0 == b.origin.y.0)
            &&& u.origin.x.0 + u.size.width.0 >= a.origin.x.0 + a.size.width.0
            &&& u.origin.x.0 + u.size.width.0 >= b.origin.x.0 + b.size.width.0
            &&& u.origin.y.0 + u.size.height.0 >= a.origin.y.0 + a.size.height.0
            &&& u.origin.y.0 + u.size.height.0 >= b.origin.y.0 + b.size.height.0
            &&& (u.origin.x.0 + u.size.width.0 == a.origin.x.0 + a.size.width.0 || u.origin.x.0
                + u.size.width.0 == b.origin.x.0 + b.size.width.0)
            &&& (u.origin.y.0 + u.size.height.0 == a.origin.y.0 + a.size.height.0 || u.origin.y.0
                + u.size.height.0 == b.origin.y.0 + b.size.height.0)
        }),
{
    lemma_wrap_in_range(a.origin.x.0 + a.size.width.0);
    lemma_wrap_in_range(b.origin.x.0 + b.size.width.0);
    lemma_wrap_in_range(a.origin.y.0 + a.size.height.0);
    lemma_wrap_in_range(b.origin.y.0 + b.size.height.0);
    let u = a.union_spec(b);
    let right = a.max_x_spec().max_spec(b.max_x_spec());
    let bottom = a.max_y_spec().max_spec(b.max_y_spec());
    lemma_wrap_in_range(right.0 - u.origin.x.0);
    lemma_wrap_in_range(bottom.0 - u.origin.y.0);
}

/// The point on a rectangle's right edge, or on its bottom edge, is outside
/// it; its top left corner is inside it as soon as that corner lies before
/// both far edges.
pub proof fn lemma_contains_is_half_open(r: Rect, x: Au, y: Au)
    ensures
        !r.contains_spec(r.max_x_spec(), y),
        !r.contains_spec(x, r.max_y_spec()),
        r.contains_spec(r.origin.x, r.origin.y) <==> (r.origin.x.0 < r.max_x_spec().0 && r.origin.y.0
            < r.max_y_spec().0),
{
}

} // verus!
