use vstd::prelude::*;

verus! {

/// A pixel position on the image grid. Signed coordinates keep the
/// cross-product arithmetic simple and let triangle bounding boxes
/// probe outside the visible frame.
#[derive(Clone, Copy, Debug, PartialEq, Eq, Structural)]
pub struct Point {
    pub x: i32,
    pub y: i32,
}

/// Numerator of the second barycentric weight of the point `(px, py)` in
/// triangle `(a, b, c)`: the weight itself is `bary_u / bary_det`.
pub open spec fn bary_u(px: int, py: int, a: Point, b: Point, c: Point) -> int {
    (c.x - a.x) * (a.y - py) - (c.y - a.y) * (a.x - px)
}

/// Numerator of the third barycentric weight of the point `(px, py)` in
/// triangle `(a, b, c)`: the weight itself is `bary_v / bary_det`.
pub open spec fn bary_v(px: int, py: int, a: Point, b: Point, c: Point) -> int {
    (a.x - px) * (b.y - a.y) - (b.x - a.x) * (a.y - py)
}

/// Common denominator of the barycentric weights: twice the signed area of
/// the triangle `(a, b, c)`. Zero exactly for a degenerate (edge-on) triangle.
pub open spec fn bary_det(a: Point, b: Point, c: Point) -> int {
    (b.x - a.x) * (c.y - a.y) - (c.x - a.x) * (b.y - a.y)
}

/// The point `(px, py)` lies inside triangle `(a, b, c)`: the triangle is not
/// degenerate and all three barycentric weights `(det - u - v)/det`,
/// `u/det`, `v/det` are at least zero. A point of a degenerate triangle
/// counts as outside.
pub open spec fn inside_tri_at(px: int, py: int, a: Point, b: Point, c: Point) -> bool {
    let u = bary_u(px, py, a, b, c);
    let v = bary_v(px, py, a, b, c);
    let d = bary_det(a, b, c);
    d != 0 && if d > 0 {
        u >= 0 && v >= 0 && u + v <= d
    } else {
        u <= 0 && v <= 0 && u + v >= d
    }
}

/// The point `p` lies inside triangle `(a, b, c)`.
pub open spec fn inside_tri(p: Point, a: Point, b: Point, c: Point) -> bool {
    inside_tri_at(p.x as int, p.y as int, a, b, c)
}

/// The point `(px, py)` lies strictly inside triangle `(a, b, c)`: all three
/// barycentric weights are greater than zero.
pub open spec fn strictly_inside_tri_at(px: int, py: int, a: Point, b: Point, c: Point) -> bool {
    let u = bary_u(px, py, a, b, c);
    let v = bary_v(px, py, a, b, c);
    let d = bary_det(a, b, c);
    d != 0 && if d > 0 {
        u > 0 && v > 0 && u + v < d
    } else {
        u < 0 && v < 0 && u + v > d
    }
}

pub open spec fn min3(x: int, y: int, z: int) -> int {
    if x <= y && x <= z {
        x
    } else if y <= z {
        y
    } else {
        z
    }
}

pub open spec fn max3(x: int, y: int, z: int) -> int {
    if x >= y && x >= z {
        x
    } else if y >= z {
        y
    } else {
        z
    }
}

/// The product of two coordinate differences cannot overflow a 128-bit
/// integer.
proof fn lemma_diff_product_bound(a: int, b: int)
    by (nonlinear_arith)
    requires
        -0x1_0000_0000 <= a <= 0x1_0000_0000,
        -0x1_0000_0000 <= b <= 0x1_0000_0000,
    ensures
        -0x1_0000_0000_0000_0000 <= a * b <= 0x1_0000_0000_0000_0000,
{
}

/// Exact wide product of two coordinate differences.
pub(crate) fn mul_wide(a: i64, b: i64) -> (r: i128)
    requires
        -0x1_0000_0000 <= a <= 0x1_0000_0000,
        -0x1_0000_0000 <= b <= 0x1_0000_0000,
    ensures
        r == a * b,
        -0x1_0000_0000_0000_0000 <= r <= 0x1_0000_0000_0000_0000,
{
    proof {
        lemma_diff_product_bound(a as int, b as int);
    }
    (a as i128) * (b as i128)
}

/// Test whether the point `p` is inside the triangle, by exact evaluation of
/// the barycentric sign conditions.
pub fn inside_triangle(p: Point, triangle: (Point, Point, Point)) -> (r: bool)
    ensures
        r == inside_tri(p, triangle.0, triangle.1, triangle.2),
{
    let (a, b, c) = triangle;
    let abx: i64 = b.x as i64 - a.x as i64;
    let aby: i64 = b.y as i64 - a.y as i64;
    let acx: i64 = c.x as i64 - a.x as i64;
    let acy: i64 = c.y as i64 - a.y as i64;
    let pax: i64 = a.x as i64 - p.x as i64;
    let pay: i64 = a.y as i64 - p.y as i64;

    let u: i128 = mul_wide(acx, pay) - mul_wide(acy, pax);
    let v: i128 = mul_wide(pax, aby) - mul_wide(abx, pay);
    let d: i128 = mul_wide(abx, acy) - mul_wide(acx, aby);

    if d == 0 {
        false
    } else if d > 0 {
        u >= 0 && v >= 0 && u + v <= d
    } else {
        u <= 0 && v <= 0 && u + v >= d
    }
}

impl Point {
    /// The z component of the cross product of `self` and `other` taken as
    /// 3-vectors with z = 0.
    pub fn cross(self, other: Self) -> (r: i32)
        requires
            i32::MIN <= self.x * other.y <= i32::MAX,
            i32::MIN <= self.y * other.x <= i32::MAX,
            i32::MIN <= self.x * other.y - self.y * other.x <= i32::MAX,
        ensures
            r == self.x * other.y - self.y * other.x,
    {
        self.x * other.y - self.y * other.x
    }
}

/// Cramer identity for the barycentric numerators over a triangle translated
/// so that its first vertex is the origin: the weighted sum of the edge
/// vectors recovers the sample point, scaled by the denominator. `npx` and
/// `npy` are the negated coordinates of the sample point.
#[verifier::rlimit(50)]
proof fn lemma_bary_cramer(bx: int, by: int, cx: int, cy: int, npx: int, npy: int)
    by (nonlinear_arith)
    ensures
        (cx * npy - cy * npx) * bx + (npx * by - bx * npy) * cx
            == (bx * cy - cx * by) * (-npx),
        (cx * npy - cy * npx) * by + (npx * by - bx * npy) * cy
            == (bx * cy - cx * by) * (-npy),
{
}

/// A value whose `d`-multiple is a combination of `bx`, `cx` and 0 with
/// weights of the sign of `d` summing to `d` lies between any common lower
/// and upper bound of `bx`, `cx` and 0.
proof fn lemma_convex_bound(u: int, v: int, d: int, bx: int, cx: int, px: int, lo: int, hi: int)
    by (nonlinear_arith)
    requires
        d != 0,
        d > 0 ==> u >= 0 && v >= 0 && u + v <= d,
        d < 0 ==> u <= 0 && v <= 0 && u + v >= d,
        d * px == u * bx + v * cx,
        lo <= 0,
        lo <= bx,
        lo <= cx,
        hi >= 0,
        hi >= bx,
        hi >= cx,
    ensures
        lo <= px <= hi,
{
}

/// A point inside a triangle lies within the triangle's axis-aligned
/// bounding box.
pub proof fn lemma_inside_in_bbox(px: int, py: int, a: Point, b: Point, c: Point)
    requires
        inside_tri_at(px, py, a, b, c),
    ensures
        min3(a.x as int, b.x as int, c.x as int) <= px <= max3(a.x as int, b.x as int, c.x as int),
        min3(a.y as int, b.y as int, c.y as int) <= py <= max3(a.y as int, b.y as int, c.y as int),
{
    let u = bary_u(px, py, a, b, c);
    let v = bary_v(px, py, a, b, c);
    let d = bary_det(a, b, c);
    let bx = b.x - a.x;
    let by = b.y - a.y;
    let cx = c.x - a.x;
    let cy = c.y - a.y;
    let npx = a.x - px;
    let npy = a.y - py;
    lemma_bary_cramer(bx, by, cx, cy, npx, npy);
    assert(u == cx * npy - cy * npx);
    assert(v == npx * by - bx * npy);
    assert(d == bx * cy - cx * by);
    assert(d * (px - a.x) == u * bx + v * cx);
    assert(d * (py - a.y) == u * by + v * cy);
    lemma_convex_bound(u, v, d, bx, cx, px - a.x,
        min3(0, bx, cx), max3(0, bx, cx));
    lemma_convex_bound(u, v, d, by, cy, py - a.y,
        min3(0, by, cy), max3(0, by, cy));
}

} // verus!
