//! Points, vectors and axis-aligned rectangles on an integer grid.
//!
//! Coordinates are `i32` grid steps; `x` grows to the right and `y` grows
//! downwards, so the top-left corner of a rectangle holds its smallest
//! coordinates. One coordinate value, [`UNSET`], is set aside to mark a
//! corner that has not been given yet: the null rectangle is made of it, and
//! growing a rectangle skips it.
use vstd::prelude::*;

verus! {

/// The coordinate value that stands for "no coordinate".
pub const UNSET: i32 = -2147483648;

/// A position on the grid.
#[derive(PartialOrd, PartialEq, Eq, Copy, Clone, Debug, Structural)]
pub struct Point {
    pub x: i32,
    pub y: i32,
}

/// A displacement on the grid.
#[derive(PartialOrd, PartialEq, Eq, Copy, Clone, Debug, Structural)]
pub struct Vector {
    pub x: i32,
    pub y: i32,
}

/// An axis-aligned rectangle, given by two opposite corners.
#[derive(PartialOrd, PartialEq, Eq, Copy, Clone, Debug, Structural)]
pub struct Rect {
    pub top_left: Point,
    pub bottom_right: Point,
}

/// Whether `v` can be held by a coordinate.
pub open spec fn fits(v: int) -> bool {
    i32::MIN <= v <= i32::MAX
}

/// The smaller of two coordinates, where an unset one gives way to the other.
pub open spec fn lower(a: i32, b: i32) -> i32 {
    if a == UNSET {
        b
    } else if b == UNSET {
        a
    } else if a < b {
        a
    } else {
        b
    }
}

/// The larger of two coordinates, where an unset one gives way to the other.
pub open spec fn upper(a: i32, b: i32) -> i32 {
    if a == UNSET {
        b
    } else if b == UNSET {
        a
    } else if a > b {
        a
    } else {
        b
    }
}

/// The grid coordinate halfway between `a` and `b`, rounded down.
pub open spec fn halfway(a: i32, b: i32) -> i32 {
    ((a + b) / 2) as i32
}

/// The smaller coordinate, skipping an unset one.
fn min_coord(a: i32, b: i32) -> (m: i32)
    ensures
        m == lower(a, b),
{
    if a == UNSET {
        b
    } else if b == UNSET {
        a
    } else if a < b {
        a
    } else {
        b
    }
}

/// The larger coordinate, skipping an unset one.
fn max_coord(a: i32, b: i32) -> (m: i32)
    ensures
        m == upper(a, b),
{
    if a == UNSET {
        b
    } else if b == UNSET {
        a
    } else if a > b {
        a
    } else {
        b
    }
}

/// The coordinate halfway between the two, rounded down.
fn mid_coord(a: i32, b: i32) -> (m: i32)
    ensures
        m == halfway(a, b),
        a <= b ==> a <= m <= b,
        b <= a ==> b <= m <= a,
{
    let s: i64 = a as i64 + b as i64;
    let h: i64 = if s >= 0 {
        s / 2
    } else {
        -((1 - s) / 2)
    };
    assert(h == (a + b) / 2);
    h as i32
}

impl core::ops::Neg for Vector {
    type Output = Vector;

    fn neg(self) -> (v: Vector) {
        Vector { x: -self.x, y: -self.y }
    }
}

impl vstd::std_specs::ops::NegSpecImpl for Vector {
    open spec fn obeys_neg_spec() -> bool {
        true
    }

    open spec fn neg_req(self) -> bool {
        fits(-self.x) && fits(-self.y)
    }

    open spec fn neg_spec(self) -> Vector {
        Vector { x: (-self.x) as i32, y: (-self.y) as i32 }
    }
}

impl core::ops::Sub<Vector> for Point {
    type Output = Point;

    fn sub(self, rhs: Vector) -> (p: Point) {
        Point { x: self.x - rhs.x, y: self.y - rhs.y }
    }
}

impl vstd::std_specs::ops::SubSpecImpl<Vector> for Point {
    open spec fn obeys_sub_spec() -> bool {
        true
    }

    open spec fn sub_req(self, rhs: Vector) -> bool {
        fits(self.x - rhs.x) && fits(self.y - rhs.y)
    }

    open spec fn sub_spec(self, rhs: Vector) -> Point {
        self.minus(rhs)
    }
}

impl core::ops::Add<Vector> for Point {
    type Output = Point;

    fn add(self, rhs: Vector) -> (p: Point) {
        Point { x: self.x + rhs.x, y: self.y + rhs.y }
    }
}

impl vstd::std_specs::ops::AddSpecImpl<Vector> for Point {
    open spec fn obeys_add_spec() -> bool {
        true
    }

    open spec fn add_req(self, rhs: Vector) -> bool {
        fits(self.x + rhs.x) && fits(self.y + rhs.y)
    }

    open spec fn add_spec(self, rhs: Vector) -> Point {
        self.plus(rhs)
    }
}

impl core::ops::Sub<Point> for Vector {
    type Output = Point;

    fn sub(self, rhs: Point) -> (p: Point) {
        Point { x: self.x - rhs.x, y: self.y - rhs.y }
    }
}

impl vstd::std_specs::ops::SubSpecImpl<Point> for Vector {
    open spec fn obeys_sub_spec() -> bool {
        true
    }

    open spec fn sub_req(self, rhs: Point) -> bool {
        fits(self.x - rhs.x) && fits(self.y - rhs.y)
    }

    open spec fn sub_spec(self, rhs: Point) -> Point {
        Point { x: (self.x - rhs.x) as i32, y: (self.y - rhs.y) as i32 }
    }
}

impl core::ops::Add<Point> for Vector {
    type Output = Point;

    fn add(self, rhs: Point) -> (p: Point) {
        Point { x: self.x + rhs.x, y: self.y + rhs.y }
    }
}

impl vstd::std_specs::ops::AddSpecImpl<Point> for Vector {
    open spec fn obeys_add_spec() -> bool {
        true
    }

    open spec fn add_req(self, rhs: Point) -> bool {
        fits(self.x + rhs.x) && fits(self.y + rhs.y)
    }

    open spec fn add_spec(self, rhs: Point) -> Point {
        rhs.plus(self)
    }
}

impl core::ops::Sub<Point> for Point {
    type Output = Vector;

    fn sub(self, rhs: Point) -> (v: Vector) {
        Vector { x: self.x - rhs.x, y: self.y - rhs.y }
    }
}

impl vstd::std_specs::ops::SubSpecImpl<Point> for Point {
    open spec fn obeys_sub_spec() -> bool {
        true
    }

    open spec fn sub_req(self, rhs: Point) -> bool {
        fits(self.x - rhs.x) && fits(self.y - rhs.y)
    }

    open spec fn sub_spec(self, rhs: Point) -> Vector {
        Vector { x: (self.x - rhs.x) as i32, y: (self.y - rhs.y) as i32 }
    }
}

impl Point {
    /// The squared distance between the two points.
    pub open spec fn spec_distance_2(&self, other: &Point) -> int {
        (self.x - other.x) * (self.x - other.x) + (self.y - other.y) * (self.y - other.y)
    }

    /// Whether the two points lie less than `epsilon` apart.
    pub open spec fn spec_close_to(&self, other: &Point, epsilon: i32) -> bool {
        self.spec_distance_2(other) < epsilon * epsilon
    }

    /// The point moved by `v`.
    pub open spec fn plus(self, v: Vector) -> Point {
        Point { x: (self.x + v.x) as i32, y: (self.y + v.y) as i32 }
    }

    /// The point moved against `v`.
    pub open spec fn minus(self, v: Vector) -> Point {
        Point { x: (self.x - v.x) as i32, y: (self.y - v.y) as i32 }
    }

    /// The squared distance between the two points.
    pub fn distance_2(&self, other: &Point) -> (d: i128)
        ensures
            d == self.spec_distance_2(other),
    {
        let dx: i128 = self.x as i128 - other.x as i128;
        let dy: i128 = self.y as i128 - other.y as i128;
        assert(0 <= dx * dx <= 0x1_0000_0000_0000_0000) by (nonlinear_arith)
            requires
                -0x1_0000_0000 <= dx <= 0x1_0000_0000,
        ;
        assert(0 <= dy * dy <= 0x1_0000_0000_0000_0000) by (nonlinear_arith)
            requires
                -0x1_0000_0000 <= dy <= 0x1_0000_0000,
        ;
        dx * dx + dy * dy
    }

    /// Whether the two lie less than `epsilon` apart, corner by corner.
    #[verifier::when_used_as_spec(spec_close_to)]
    pub fn close_to(&self, other: &Point, epsilon: i32) -> (close: bool)
        ensures
            close == self.spec_close_to(other, epsilon),
    {
        let e: i128 = epsilon as i128;
        assert(0 <= e * e <= 0x1_0000_0000_0000_0000) by (nonlinear_arith)
            requires
                -0x1_0000_0000 <= e <= 0x1_0000_0000,
        ;
        self.distance_2(other) < e * e
    }
}

impl Vector {
    /// The component-wise product.
    pub fn mul_e(&self, other: &Vector) -> (v: Vector)
        requires
            fits(self.x * other.x),
            fits(self.y * other.y),
        ensures
            v.x == self.x * other.x,
            v.y == self.y * other.y,
    {
        Vector { x: self.x * other.x, y: self.y * other.y }
    }

    /// The vector with its components scaled by `sx` and `sy`.
    pub fn scale_e(&self, sx: i32, sy: i32) -> (v: Vector)
        requires
            fits(self.x * sx),
            fits(self.y * sy),
        ensures
            v.x == self.x * sx,
            v.y == self.y * sy,
    {
        Vector { x: self.x * sx, y: self.y * sy }
    }

    /// The z component of the cross product.
    pub fn cross(&self, other: &Vector) -> (c: i128)
        ensures
            c == self.x * other.y - self.y * other.x,
    {
        let a: i128 = self.x as i128;
        let b: i128 = other.y as i128;
        let c: i128 = self.y as i128;
        let d: i128 = other.x as i128;
        assert(-0x1_0000_0000_0000_0000 <= a * b <= 0x1_0000_0000_0000_0000) by (nonlinear_arith)
            requires
                -0x1_0000_0000 <= a <= 0x1_0000_0000,
                -0x1_0000_0000 <= b <= 0x1_0000_0000,
        ;
        assert(-0x1_0000_0000_0000_0000 <= c * d <= 0x1_0000_0000_0000_0000) by (nonlinear_arith)
            requires
                -0x1_0000_0000 <= c <= 0x1_0000_0000,
                -0x1_0000_0000 <= d <= 0x1_0000_0000,
        ;
        a * b - c * d
    }

    /// The dot product.
    pub fn dot(&self, other: &Vector) -> (d: i128)
        ensures
            d == self.x * other.x + self.y * other.y,
    {
        let a: i128 = self.x as i128;
        let b: i128 = other.x as i128;
        let c: i128 = self.y as i128;
        let e: i128 = other.y as i128;
        assert(-0x1_0000_0000_0000_0000 <= a * b <= 0x1_0000_0000_0000_0000) by (nonlinear_arith)
            requires
                -0x1_0000_0000 <= a <= 0x1_0000_0000,
                -0x1_0000_0000 <= b <= 0x1_0000_0000,
        ;
        assert(-0x1_0000_0000_0000_0000 <= c * e <= 0x1_0000_0000_0000_0000) by (nonlinear_arith)
            requires
                -0x1_0000_0000 <= c <= 0x1_0000_0000,
                -0x1_0000_0000 <= e <= 0x1_0000_0000,
        ;
        a * b + c * e
    }
}

impl Rect {
    /// The x coordinate of the left edge.
    pub open spec fn spec_left(&self) -> i32 {
        self.top_left.x
    }

    /// The x coordinate of the right edge.
    pub open spec fn spec_right(&self) -> i32 {
        self.bottom_right.x
    }

    /// The y coordinate of the top edge.
    pub open spec fn spec_top(&self) -> i32 {
        self.top_left.y
    }

    /// The y coordinate of the bottom edge.
    pub open spec fn spec_bottom(&self) -> i32 {
        self.bottom_right.y
    }

    /// The distance from the left edge to the right edge.
    pub open spec fn spec_width(&self) -> int {
        self.bottom_right.x - self.top_left.x
    }

    /// The distance from the top edge to the bottom edge.
    pub open spec fn spec_height(&self) -> int {
        self.bottom_right.y - self.top_left.y
    }

    /// The rectangle that holds only `p`.
    pub open spec fn spec_null_at(p: Point) -> Rect {
        Rect { top_left: p, bottom_right: p }
    }

    /// The rectangle of which no corner is set.
    pub open spec fn spec_null() -> Rect {
        Rect::spec_null_at(Point { x: UNSET, y: UNSET })
    }

    /// Whether a coordinate of the rectangle is unset.
    pub open spec fn spec_is_null(&self) -> bool {
        self.top_left.x == UNSET || self.top_left.y == UNSET || self.bottom_right.x == UNSET
            || self.bottom_right.y == UNSET
    }

    /// Whether the rectangle has points: every coordinate is set and the
    /// corners are in order.
    pub open spec fn is_proper(&self) -> bool {
        !self.spec_is_null() && self.top_left.x <= self.bottom_right.x && self.top_left.y
            <= self.bottom_right.y
    }

    /// The rectangle grown just enough to reach `p`.
    pub open spec fn spec_expanded_by(&self, p: Point) -> Rect {
        Rect {
            top_left: Point { x: lower(self.top_left.x, p.x), y: lower(self.top_left.y, p.y) },
            bottom_right: Point {
                x: upper(self.bottom_right.x, p.x),
                y: upper(self.bottom_right.y, p.y),
            },
        }
    }

    /// The smallest rectangle that reaches both points.
    pub open spec fn spec_from_points(a: Point, b: Point) -> Rect {
        Rect::spec_null_at(a).spec_expanded_by(b)
    }

    /// The smallest rectangle that reaches both corners of each operand.
    pub open spec fn spec_union_with(&self, other: &Rect) -> Rect {
        self.spec_expanded_by(other.top_left).spec_expanded_by(other.bottom_right)
    }

    /// Whether `p` lies in the rectangle. The top and left edges belong to
    /// it, the bottom and right edges do not.
    pub open spec fn spec_contains(&self, p: &Point) -> bool {
        !self.spec_is_null() && p.x >= self.top_left.x && p.x < self.bottom_right.x && p.y
            >= self.top_left.y && p.y < self.bottom_right.y
    }

    /// Whether the two rectangles have a point in common, edges included:
    /// two rectangles that only touch, along an edge or at a corner, do
    /// intersect. Only [`Rect::spec_contains`] leaves the bottom and right
    /// edges out.
    pub open spec fn spec_does_intersect(&self, other: &Rect) -> bool {
        self.is_proper() && other.is_proper() && !(other.top_left.x > self.bottom_right.x
            || other.bottom_right.x < self.top_left.x || other.top_left.y > self.bottom_right.y
            || other.bottom_right.y < self.top_left.y)
    }

    /// Whether `self`, `a` and `b` have a point in common, edges included.
    pub open spec fn meets_both(&self, a: &Rect, b: &Rect) -> bool {
        &&& self.spec_does_intersect(a)
        &&& self.spec_does_intersect(b)
        &&& a.spec_does_intersect(b)
    }

    /// Whether `inner` is a proper rectangle that lies within `self`, edges
    /// included.
    pub open spec fn encloses(&self, inner: &Rect) -> bool {
        &&& self.is_proper()
        &&& inner.is_proper()
        &&& self.top_left.x <= inner.top_left.x
        &&& inner.bottom_right.x <= self.bottom_right.x
        &&& self.top_left.y <= inner.top_left.y
        &&& inner.bottom_right.y <= self.bottom_right.y
    }

    /// The grid point at the middle of the rectangle, rounded down.
    pub open spec fn spec_midpoint(&self) -> Point {
        Point {
            x: halfway(self.top_left.x, self.bottom_right.x),
            y: halfway(self.top_left.y, self.bottom_right.y),
        }
    }

    /// The part of both rectangles.
    pub open spec fn spec_intersect_with(&self, other: &Rect) -> Rect {
        if !self.spec_does_intersect(other) {
            Rect::spec_null()
        } else {
            Rect {
                top_left: Point {
                    x: if self.top_left.x > other.top_left.x {
                        self.top_left.x
                    } else {
                        other.top_left.x
                    },
                    y: if self.top_left.y > other.top_left.y {
                        self.top_left.y
                    } else {
                        other.top_left.y
                    },
                },
                bottom_right: Point {
                    x: if self.bottom_right.x < other.bottom_right.x {
                        self.bottom_right.x
                    } else {
                        other.bottom_right.x
                    },
                    y: if self.bottom_right.y < other.bottom_right.y {
                        self.bottom_right.y
                    } else {
                        other.bottom_right.y
                    },
                },
            }
        }
    }

    /// The left and the right half, which meet at the middle.
    pub open spec fn spec_split_vert(&self) -> (Rect, Rect) {
        let m = self.spec_midpoint();
        (
            Rect { top_left: self.top_left, bottom_right: Point { x: m.x, y: self.bottom_right.y } },
            Rect { top_left: Point { x: m.x, y: self.top_left.y }, bottom_right: self.bottom_right },
        )
    }

    /// The upper and the lower half, which meet at the middle.
    pub open spec fn spec_split_hori(&self) -> (Rect, Rect) {
        let m = self.spec_midpoint();
        (
            Rect { top_left: self.top_left, bottom_right: Point { x: self.bottom_right.x, y: m.y } },
            Rect { top_left: Point { x: self.top_left.x, y: m.y }, bottom_right: self.bottom_right },
        )
    }

    /// The four quadrants, which meet at the midpoint: top-left, top-right,
    /// bottom-left, bottom-right.
    pub open spec fn spec_split_quad(&self) -> Seq<Rect> {
        let m = self.spec_midpoint();
        seq![
            Rect { top_left: self.top_left, bottom_right: m },
            Rect {
                top_left: Point { x: m.x, y: self.top_left.y },
                bottom_right: Point { x: self.bottom_right.x, y: m.y },
            },
            Rect {
                top_left: Point { x: self.top_left.x, y: m.y },
                bottom_right: Point { x: m.x, y: self.bottom_right.y },
            },
            Rect { top_left: m, bottom_right: self.bottom_right },
        ]
    }

    /// Whether both pairs of matching corners lie less than `epsilon` apart.
    pub open spec fn spec_close_to(&self, other: &Rect, epsilon: i32) -> bool {
        self.top_left.spec_close_to(&other.top_left, epsilon) && self.bottom_right.spec_close_to(
            &other.bottom_right,
            epsilon,
        )
    }

    /// The rectangle around `center` that reaches `radius` steps in each direction.
    pub fn centered_with_radius(center: &Point, radius: i32) -> (r: Rect)
        requires
            fits(center.x - radius),
            fits(center.x + radius),
            fits(center.y - radius),
            fits(center.y + radius),
        ensures
            r == Rect::spec_from_points(
                Point { x: (center.x - radius) as i32, y: (center.y - radius) as i32 },
                Point { x: (center.x + radius) as i32, y: (center.y + radius) as i32 },
            ),
    {
        let v = Vector { x: radius, y: radius };
        Rect::from_points(&(*center - v), &(*center + v))
    }

    /// The smallest rectangle that reaches both points.
    #[verifier::when_used_as_spec(spec_from_points_ref)]
    pub fn from_points(a: &Point, b: &Point) -> (r: Rect)
        ensures
            r == Rect::spec_from_points(*a, *b),
    {
        let mut r = Rect::null_at(a);
        r.expand_to_include(b);
        r
    }

    /// The smallest rectangle that reaches both points.
    pub open spec fn spec_from_points_ref(a: &Point, b: &Point) -> Rect {
        Rect::spec_from_points(*a, *b)
    }

    /// The rectangle with its top-left corner at `point` and the given size.
    pub fn from_point_and_size(point: &Point, size: &Vector) -> (r: Rect)
        requires
            size.x > 0,
            size.y > 0,
            fits(point.x + size.x),
            fits(point.y + size.y),
        ensures
            r.top_left == *point,
            r.bottom_right == point.plus(*size),
    {
        Rect { top_left: *point, bottom_right: *point + *size }
    }

    /// The rectangle of which no corner is set.
    pub fn null() -> (r: Rect)
        ensures
            r == Rect::spec_null(),
            r.spec_is_null(),
    {
        Rect { top_left: Point { x: UNSET, y: UNSET }, bottom_right: Point { x: UNSET, y: UNSET } }
    }

    /// The rectangle that holds only `point`.
    pub fn null_at(point: &Point) -> (r: Rect)
        ensures
            r == Rect::spec_null_at(*point),
    {
        Rect { top_left: *point, bottom_right: *point }
    }

    /// The rectangle with each edge moved outwards by the given amount.
    pub fn expand(&self, left: i32, top: i32, right: i32, bottom: i32) -> (r: Rect)
        requires
            fits(self.top_left.x - left),
            fits(self.top_left.y - top),
            fits(self.bottom_right.x + right),
            fits(self.bottom_right.y + bottom),
        ensures
            r.top_left == self.top_left.minus(Vector { x: left, y: top }),
            r.bottom_right == self.bottom_right.plus(Vector { x: right, y: bottom }),
    {
        Rect {
            top_left: Point { x: self.top_left.x - left, y: self.top_left.y - top },
            bottom_right: Point { x: self.bottom_right.x + right, y: self.bottom_right.y + bottom },
        }
    }

    /// The distance from the left edge to the right edge.
    pub fn width(&self) -> (w: i64)
        ensures
            w == self.spec_width(),
    {
        self.bottom_right.x as i64 - self.top_left.x as i64
    }

    /// The distance from the top edge to the bottom edge.
    pub fn height(&self) -> (h: i64)
        ensures
            h == self.spec_height(),
    {
        self.bottom_right.y as i64 - self.top_left.y as i64
    }

    /// The x coordinate of the left edge.
    #[verifier::when_used_as_spec(spec_left)]
    pub fn left(&self) -> (v: i32)
        ensures
            v == self.top_left.x,
    {
        self.top_left.x
    }

    /// The x coordinate of the right edge.
    #[verifier::when_used_as_spec(spec_right)]
    pub fn right(&self) -> (v: i32)
        ensures
            v == self.bottom_right.x,
    {
        self.bottom_right.x
    }

    /// The y coordinate of the top edge.
    #[verifier::when_used_as_spec(spec_top)]
    pub fn top(&self) -> (v: i32)
        ensures
            v == self.top_left.y,
    {
        self.top_left.y
    }

    /// The y coordinate of the bottom edge.
    #[verifier::when_used_as_spec(spec_bottom)]
    pub fn bottom(&self) -> (v: i32)
        ensures
            v == self.bottom_right.y,
    {
        self.bottom_right.y
    }

    /// The top-left corner.
    pub fn top_left(&self) -> (p: Point)
        ensures
            p == self.top_left,
    {
        self.top_left
    }

    /// The bottom-right corner.
    pub fn bottom_right(&self) -> (p: Point)
        ensures
            p == self.bottom_right,
    {
        self.bottom_right
    }

    /// The bottom-left corner.
    pub fn bottom_left(&self) -> (p: Point)
        ensures
            p == (Point { x: self.top_left.x, y: self.bottom_right.y }),
    {
        Point { x: self.top_left().x, y: self.bottom_right().y }
    }

    /// The top-right corner.
    pub fn top_right(&self) -> (p: Point)
        ensures
            p == (Point { x: self.bottom_right.x, y: self.top_left.y }),
    {
        Point { x: self.bottom_right().x, y: self.top_left().y }
    }

    /// The middle of the top edge.
    pub fn north(&self) -> (p: Point)
        ensures
            p == (Point { x: self.spec_midpoint().x, y: self.top_left.y }),
    {
        Point { x: mid_coord(self.left(), self.right()), y: self.top() }
    }

    /// The middle of the bottom edge.
    pub fn south(&self) -> (p: Point)
        ensures
            p == (Point { x: self.spec_midpoint().x, y: self.bottom_right.y }),
    {
        Point { x: mid_coord(self.left(), self.right()), y: self.bottom() }
    }

    /// The middle of the left edge.
    pub fn west(&self) -> (p: Point)
        ensures
            p == (Point { x: self.top_left.x, y: self.spec_midpoint().y }),
    {
        Point { x: self.left(), y: mid_coord(self.top(), self.bottom()) }
    }

    /// The middle of the right edge.
    pub fn east(&self) -> (p: Point)
        ensures
            p == (Point { x: self.bottom_right.x, y: self.spec_midpoint().y }),
    {
        Point { x: self.right(), y: mid_coord(self.top(), self.bottom()) }
    }

    /// The rectangle grown just enough to reach `point`.
    pub fn expanded_by(&self, point: &Point) -> (r: Rect)
        ensures
            r == self.spec_expanded_by(*point),
            *self == Rect::spec_null() ==> r == Rect::spec_null_at(*point),
    {
        let mut r = *self;
        r.expand_to_include(point);
        r
    }

    /// Whether a coordinate of the rectangle is unset.
    #[verifier::when_used_as_spec(spec_is_null)]
    pub fn is_null(&self) -> (null: bool)
        ensures
            null == self.spec_is_null(),
    {
        self.top_left.x == UNSET || self.top_left.y == UNSET || self.bottom_right.x == UNSET
            || self.bottom_right.y == UNSET
    }

    /// Grows the rectangle just enough to reach `point`. An unset coordinate
    /// of either gives way to the other's.
    pub fn expand_to_include(&mut self, point: &Point)
        ensures
            *final(self) == old(self).spec_expanded_by(*point),
            *old(self) == Rect::spec_null() ==> *final(self) == Rect::spec_null_at(*point),
    {
        self.top_left.x = min_coord(self.top_left.x, point.x);
        self.top_left.y = min_coord(self.top_left.y, point.y);
        self.bottom_right.x = max_coord(self.bottom_right.x, point.x);
        self.bottom_right.y = max_coord(self.bottom_right.y, point.y);
    }

    /// The smallest rectangle that reaches both corners of each operand.
    pub fn union_with(&self, other: &Rect) -> (r: Rect)
        ensures
            r == self.spec_union_with(other),
            *other == Rect::spec_null() ==> r == *self,
            *self == Rect::spec_null() && other.is_proper() ==> r == *other,
            self.is_proper() && other.is_proper() ==> r.encloses(self) && r.encloses(other),
    {
        let mut r = *self;
        r.expand_to_include(&other.top_left);
        r.expand_to_include(&other.bottom_right);
        r
    }

    /// Whether `p` lies in the rectangle. The top and left edges belong to
    /// it, the bottom and right edges do not.
    #[verifier::when_used_as_spec(spec_contains)]
    pub fn contains(&self, p: &Point) -> (inside: bool)
        ensures
            inside == self.spec_contains(p),
    {
        !self.is_null() && p.x >= self.top_left.x && p.x < self.bottom_right.x && p.y
            >= self.top_left.y && p.y < self.bottom_right.y
    }

    /// Whether the two rectangles have a point in common, edges included:
    /// two rectangles that only touch, along an edge or at a corner, do
    /// intersect. A rectangle with an unset coordinate, or with corners out
    /// of order, has no points.
    #[verifier::when_used_as_spec(spec_does_intersect)]
    pub fn does_intersect(&self, other: &Rect) -> (meet: bool)
        ensures
            meet == self.spec_does_intersect(other),
    {
        let r1 = self;
        let r2 = other;
        let proper = !r1.is_null() && !r2.is_null() && r1.left() <= r1.right() && r1.top()
            <= r1.bottom() && r2.left() <= r2.right() && r2.top() <= r2.bottom();
        proper && !(r2.left() > r1.right() || r2.right() < r1.left() || r2.top() > r1.bottom()
            || r2.bottom() < r1.top())
    }

    /// The part of both rectangles, or the null rectangle where they have
    /// no point in common.
    pub fn intersect_with(&self, other: &Rect) -> (r: Rect)
        ensures
            r == self.spec_intersect_with(other),
            self.spec_does_intersect(other) ==> self.encloses(&r) && other.encloses(&r),
    {
        if !self.does_intersect(other) {
            return Rect::null();
        }
        let left: i32 = if self.left() > other.left() {
            self.left()
        } else {
            other.left()
        };
        let right: i32 = if self.right() < other.right() {
            self.right()
        } else {
            other.right()
        };
        let top: i32 = if self.top() > other.top() {
            self.top()
        } else {
            other.top()
        };
        let bottom: i32 = if self.bottom() < other.bottom() {
            self.bottom()
        } else {
            other.bottom()
        };
        Rect::from_points(&Point { x: left, y: top }, &Point { x: right, y: bottom })
    }

    /// The grid point at the middle of the rectangle, rounded down.
    #[verifier::when_used_as_spec(spec_midpoint)]
    pub fn midpoint(&self) -> (m: Point)
        ensures
            m == self.spec_midpoint(),
    {
        Point {
            x: mid_coord(self.top_left.x, self.bottom_right.x),
            y: mid_coord(self.top_left.y, self.bottom_right.y),
        }
    }

    /// The left and the right half, which meet at the middle.
    pub fn split_vert(&self) -> (halves: (Rect, Rect))
        ensures
            halves == self.spec_split_vert(),
    {
        let m = self.midpoint();
        (
            Rect { top_left: self.top_left, bottom_right: Point { x: m.x, y: self.bottom_right.y } },
            Rect { top_left: Point { x: m.x, y: self.top_left.y }, bottom_right: self.bottom_right },
        )
    }

    /// The upper and the lower half, which meet at the middle.
    pub fn split_hori(&self) -> (halves: (Rect, Rect))
        ensures
            halves == self.spec_split_hori(),
    {
        let m = self.midpoint();
        (
            Rect { top_left: self.top_left, bottom_right: Point { x: self.bottom_right.x, y: m.y } },
            Rect { top_left: Point { x: self.top_left.x, y: m.y }, bottom_right: self.bottom_right },
        )
    }

    /// The four quadrants, which meet at the midpoint: top-left, top-right,
    /// bottom-left, bottom-right.
    pub fn split_quad(&self) -> (quads: [Rect; 4])
        ensures
            quads@ == self.spec_split_quad(),
    {
        let m = self.midpoint();
        let quads = [
            Rect { top_left: self.top_left, bottom_right: m },
            Rect {
                top_left: Point { x: m.x, y: self.top_left.y },
                bottom_right: Point { x: self.bottom_right.x, y: m.y },
            },
            Rect {
                top_left: Point { x: self.top_left.x, y: m.y },
                bottom_right: Point { x: m.x, y: self.bottom_right.y },
            },
            Rect { top_left: m, bottom_right: self.bottom_right },
        ];
        assert(quads@ =~= self.spec_split_quad());
        quads
    }

    /// Whether the two lie less than `epsilon` apart, corner by corner.
    #[verifier::when_used_as_spec(spec_close_to)]
    pub fn close_to(&self, other: &Rect, epsilon: i32) -> (close: bool)
        ensures
            close == self.spec_close_to(other, epsilon),
    {
        self.top_left.close_to(&other.top_left, epsilon) && self.bottom_right.close_to(
            &other.bottom_right,
            epsilon,
        )
    }
}

/// Two points lie less than one grid step apart only if they are the same.
pub proof fn lemma_point_close_is_equal(a: Point, b: Point)
    ensures
        a.spec_close_to(&b, 1) <==> a == b,
{
    let dx = a.x - b.x;
    let dy = a.y - b.y;
    assert(dx * dx >= 0 && (dx != 0 ==> dx * dx >= 1)) by (nonlinear_arith);
    assert(dy * dy >= 0 && (dy != 0 ==> dy * dy >= 1)) by (nonlinear_arith);
    assert(1i32 * 1i32 == 1) by (nonlinear_arith);
}

/// Two rectangles are within one grid step of each other, corner by corner,
/// only if they are the same.
pub proof fn lemma_close_is_equal(a: Rect, b: Rect)
    ensures
        a.spec_close_to(&b, 1) <==> a == b,
{
    lemma_point_close_is_equal(a.top_left, b.top_left);
    lemma_point_close_is_equal(a.bottom_right, b.bottom_right);
}

/// The quadrants of a proper rectangle are proper and lie within it.
pub proof fn lemma_quadrants_inside(r: Rect, j: int)
    requires
        r.is_proper(),
        0 <= j < 4,
    ensures
        r.encloses(&r.spec_split_quad()[j]),
{
}

/// A quadrant that has points belongs to a rectangle that has points, and
/// whatever meets the quadrant meets the rectangle.
pub proof fn lemma_quadrant_meets_whole(r: Rect, j: int, b: Rect)
    requires
        r.is_proper(),
        0 <= j < 4,
        r.spec_split_quad()[j].spec_does_intersect(&b),
    ensures
        r.spec_does_intersect(&b),
{
}

/// The quadrants of a rectangle cover it: where two rectangles and `r` have
/// a point in common, they have one in common with a quadrant of `r`.
pub proof fn lemma_quadrants_cover(r: Rect, a: Rect, b: Rect)
    requires
        r.meets_both(&a, &b),
    ensures
        exists|j: int| 0 <= j < 4 && (#[trigger] r.spec_split_quad()[j]).meets_both(&a, &b),
{
    let m = r.spec_midpoint();
    let q = r.spec_split_quad();
    let x = upper(upper(a.top_left.x, b.top_left.x), r.top_left.x);
    let y = upper(upper(a.top_left.y, b.top_left.y), r.top_left.y);
    if x <= m.x {
        if y <= m.y {
            assert(q[0].meets_both(&a, &b));
        } else {
            assert(q[2].meets_both(&a, &b));
        }
    } else {
        if y <= m.y {
            assert(q[1].meets_both(&a, &b));
        } else {
            assert(q[3].meets_both(&a, &b));
        }
    }
}

/// A rectangle that holds the midpoint of a proper rectangle meets it.
pub proof fn lemma_midpoint_meets(r: Rect, b: Rect)
    requires
        r.is_proper(),
        b.spec_contains(&r.spec_midpoint()),
    ensures
        r.spec_does_intersect(&b),
{
}

} // verus!
