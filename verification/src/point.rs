//! Points on the integer lattice.

use vstd::prelude::*;
use std::cmp::Ordering;

verus! {

/// A point with 32-bit integer coordinates.
#[derive(Debug, Clone, Copy, Default, PartialEq, Eq, Structural)]
pub struct Point2D {
    pub x: i32,
    pub y: i32,
}

/// Twice the signed area of the triangle `a, b, c`: positive when `a -> b -> c` turns
/// counterclockwise.
pub open spec fn turn(a: Point2D, b: Point2D, c: Point2D) -> int {
    (b.x - a.x) * (c.y - a.y) - (c.x - a.x) * (b.y - a.y)
}

/// The half-plane class used to order points by angle: `-1` for the lower half-plane and
/// the positive x-axis, `1` for the upper half-plane and the negative x-axis, `0` for the
/// origin.
pub open spec fn angle_class(p: Point2D) -> int {
    if p.y < 0 {
        -1
    } else if p.y > 0 {
        1
    } else if p.x > 0 {
        -1
    } else if p.x < 0 {
        1
    } else {
        0
    }
}

/// The ordering of two integers.
pub open spec fn int_cmp(a: int, b: int) -> Ordering {
    if a < b {
        Ordering::Less
    } else if a > b {
        Ordering::Greater
    } else {
        Ordering::Equal
    }
}

/// The order of `a` and `b` by angle: first by half-plane class, then by the cross product.
pub open spec fn angle_cmp(a: Point2D, b: Point2D) -> Ordering {
    if angle_class(a) != angle_class(b) {
        int_cmp(angle_class(a), angle_class(b))
    } else {
        int_cmp(b.x * a.y, b.y * a.x)
    }
}

/// The two products whose comparison gives the turning direction of `a -> b -> c`.
fn turn_parts(a: &Point2D, b: &Point2D, c: &Point2D) -> (r: (i128, i128))
    ensures
        r.0 - r.1 == turn(*a, *b, *c),
{
    let p = {
        let lhs = b.x as i64 - a.x as i64;
        let rhs = c.y as i64 - a.y as i64;
        assert(-0x1_0000_0000 <= lhs <= 0x1_0000_0000);
        assert(-0x1_0000_0000 <= rhs <= 0x1_0000_0000);
        assert(-0x1_0000_0000_0000_0000 <= lhs * rhs <= 0x1_0000_0000_0000_0000) by (nonlinear_arith)
            requires
                -0x1_0000_0000 <= lhs <= 0x1_0000_0000,
                -0x1_0000_0000 <= rhs <= 0x1_0000_0000,
        ;
        lhs as i128 * rhs as i128
    };
    let q = {
        let lhs = c.x as i64 - a.x as i64;
        let rhs = b.y as i64 - a.y as i64;
        assert(-0x1_0000_0000_0000_0000 <= lhs * rhs <= 0x1_0000_0000_0000_0000) by (nonlinear_arith)
            requires
                -0x1_0000_0000 <= lhs <= 0x1_0000_0000,
                -0x1_0000_0000 <= rhs <= 0x1_0000_0000,
        ;
        lhs as i128 * rhs as i128
    };
    (p, q)
}

/// The angle class of `p`.
fn angle_class_of(p: &Point2D) -> (r: i8)
    ensures
        r == angle_class(*p),
{
    if p.y < 0 {
        -1
    } else if p.y > 0 {
        1
    } else if p.x > 0 {
        -1
    } else if p.x < 0 {
        1
    } else {
        0
    }
}

/// The products `b.x * a.y` and `b.y * a.x`.
fn angle_products(a: &Point2D, b: &Point2D) -> (r: (i64, i64))
    ensures
        r.0 == b.x * a.y,
        r.1 == b.y * a.x,
{
    assert(-0x4000_0000_0000_0000 <= b.x * a.y <= 0x4000_0000_0000_0000) by (nonlinear_arith)
        requires
            -0x8000_0000 <= b.x <= 0x8000_0000,
            -0x8000_0000 <= a.y <= 0x8000_0000,
    ;
    assert(-0x4000_0000_0000_0000 <= b.y * a.x <= 0x4000_0000_0000_0000) by (nonlinear_arith)
        requires
            -0x8000_0000 <= b.y <= 0x8000_0000,
            -0x8000_0000 <= a.x <= 0x8000_0000,
    ;
    (b.x as i64 * a.y as i64, b.y as i64 * a.x as i64)
}

/// `p` lies in the lower half-plane (angle in `(-pi, 0]`): below the x-axis, or on its
/// positive side.
pub open spec fn in_lower_half(p: Point2D) -> bool {
    p.y < 0 || (p.y == 0 && p.x > 0)
}

/// `p` lies in the upper half-plane (angle in `(0, pi]`): above the x-axis, or on its
/// negative side.
pub open spec fn in_upper_half(p: Point2D) -> bool {
    p.y > 0 || (p.y == 0 && p.x < 0)
}

/// Ordering by argument agrees with the angle of the direction from the origin, as `atan2`
/// measures it from `-pi` up to `pi`. Within one half-plane, `a` comes before `b` exactly
/// when `b` is counterclockwise of `a` (their cross product is positive), and they tie
/// exactly when they point the same way. Every point of the lower half-plane comes before
/// the origin, which comes before every point of the upper half-plane. Swapping the two
/// points reverses the answer.
pub proof fn lemma_cmp_by_atan2_is_angle_order(a: Point2D, b: Point2D)
    ensures
        (in_lower_half(a) && in_lower_half(b)) || (in_upper_half(a) && in_upper_half(b)) ==> {
            &&& (angle_cmp(a, b) == Ordering::Less) == (a.x * b.y - a.y * b.x > 0)
            &&& (angle_cmp(a, b) == Ordering::Equal) == (a.x * b.y - a.y * b.x == 0)
            &&& (angle_cmp(a, b) == Ordering::Greater) == (a.x * b.y - a.y * b.x < 0)
        },
        in_lower_half(a) && in_upper_half(b) ==> angle_cmp(a, b) == Ordering::Less,
        in_lower_half(a) && b.x == 0 && b.y == 0 ==> angle_cmp(a, b) == Ordering::Less,
        a.x == 0 && a.y == 0 && in_upper_half(b) ==> angle_cmp(a, b) == Ordering::Less,
        a.x == 0 && a.y == 0 && b.x == 0 && b.y == 0 ==> angle_cmp(a, b) == Ordering::Equal,
        (angle_cmp(a, b) == Ordering::Less) == (angle_cmp(b, a) == Ordering::Greater),
        (angle_cmp(a, b) == Ordering::Equal) == (angle_cmp(b, a) == Ordering::Equal),
{
    assert(a.x * b.y == b.y * a.x) by (nonlinear_arith);
    assert(a.y * b.x == b.x * a.y) by (nonlinear_arith);
}

impl Point2D {
    pub fn new(x: i32, y: i32) -> (r: Self)
        ensures
            r.x == x,
            r.y == y,
    {
        Point2D { x, y }
    }

    /// The dot product.
    pub fn dot(&self, other: &Self) -> (r: i64)
        requires
            self.x * other.x + self.y * other.y <= i64::MAX,
        ensures
            r == self.x * other.x + self.y * other.y,
    {
        assert(-0x4000_0000_0000_0000 <= self.x * other.x <= 0x4000_0000_0000_0000) by (nonlinear_arith)
            requires
                -0x8000_0000 <= self.x <= 0x8000_0000,
                -0x8000_0000 <= other.x <= 0x8000_0000,
        ;
        assert(-0x4000_0000_0000_0000 <= self.y * other.y <= 0x4000_0000_0000_0000) by (nonlinear_arith)
            requires
                -0x8000_0000 <= self.y <= 0x8000_0000,
                -0x8000_0000 <= other.y <= 0x8000_0000,
        ;
        self.x as i64 * other.x as i64 + self.y as i64 * other.y as i64
    }

    /// The cross product (z component).
    pub fn cross(&self, other: &Self) -> (r: i64)
        requires
            self.x * other.y - self.y * other.x <= i64::MAX,
        ensures
            r == self.x * other.y - self.y * other.x,
    {
        assert(-0x4000_0000_0000_0000 <= self.x * other.y <= 0x4000_0000_0000_0000) by (nonlinear_arith)
            requires
                -0x8000_0000 <= self.x <= 0x8000_0000,
                -0x8000_0000 <= other.y <= 0x8000_0000,
        ;
        assert(-0x4000_0000_0000_0000 <= self.y * other.x <= 0x4000_0000_0000_0000) by (nonlinear_arith)
            requires
                -0x8000_0000 <= self.y <= 0x8000_0000,
                -0x8000_0000 <= other.x <= 0x8000_0000,
        ;
        self.x as i64 * other.y as i64 - self.y as i64 * other.x as i64
    }

    /// The turning direction of the path `a -> b -> c`: `Greater` counterclockwise, `Equal`
    /// collinear, `Less` clockwise.
    pub fn direction(a: &Self, b: &Self, c: &Self) -> (r: Ordering)
        ensures
            r == int_cmp(turn(*a, *b, *c), 0),
    {
        let (p, q) = turn_parts(a, b, c);
        if p < q {
            Ordering::Less
        } else if p > q {
            Ordering::Greater
        } else {
            Ordering::Equal
        }
    }

    /// Orders points by the angle of their direction from the origin, starting from the
    /// negative y side and going counterclockwise.
    pub fn cmp_by_atan2(&self, other: &Self) -> (r: Ordering)
        ensures
            r == angle_cmp(*self, *other),
    {
        let ha = angle_class_of(self);
        let hb = angle_class_of(other);
        if ha < hb {
            Ordering::Less
        } else if ha > hb {
            Ordering::Greater
        } else {
            let (u, v) = angle_products(self, other);
            if u < v {
                Ordering::Less
            } else if u > v {
                Ordering::Greater
            } else {
                Ordering::Equal
            }
        }
    }
}

} // verus!
