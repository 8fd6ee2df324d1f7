use vstd::prelude::*;

use crate::color::Color;
use crate::geom::Point;
use crate::geom::bary_det;
use crate::geom::bary_u;
use crate::geom::bary_v;
use crate::geom::inside_tri_at;
use crate::geom::strictly_inside_tri_at;
use crate::geom::inside_triangle;
use crate::geom::lemma_inside_in_bbox;
use crate::geom::min3;
use crate::geom::max3;
use crate::geom::mul_wide;
use crate::image::Image;
use crate::image::grid_index;
use crate::image::lemma_grid_index_bounds;
use crate::image::lemma_grid_index_distinct;
use crate::image::lemma_grid_index_inverse;
use crate::image::max3_i32;
use crate::image::min3_i32;

verus! {

/// Largest magnitude allowed for a fixed-point depth value, so that the
/// interpolation arithmetic stays well inside 128 bits.
pub const DEPTH_LIMIT: i64 = 0x100_0000_0000;

/// A triangle vertex already projected to screen space: an integer pixel
/// position and a fixed-point depth value (camera-space z after projection;
/// larger means closer to the camera).
#[derive(Clone, Copy, Debug, PartialEq, Eq, Structural)]
pub struct ScreenVertex {
    pub p: Point,
    pub z: i64,
}

/// The depth of the triangle `(v0, v1, v2)` at the pixel `(px, py)`:
/// the barycentric combination of the three vertex depths, rounded down.
/// Meaningful only where the triangle is not degenerate.
pub open spec fn interp_depth(px: int, py: int, v0: ScreenVertex, v1: ScreenVertex, v2: ScreenVertex) -> int {
    let u = bary_u(px, py, v0.p, v1.p, v2.p);
    let v = bary_v(px, py, v0.p, v1.p, v2.p);
    let d = bary_det(v0.p, v1.p, v2.p);
    let n = (d - u - v) * v0.z + u * v1.z + v * v2.z;
    if d > 0 {
        n / d
    } else {
        (-n) / (-d)
    }
}

/// Floor division of `n` by the positive divisor `d`.
fn floor_div(n: i128, d: i128) -> (q: i128)
    requires
        d > 0,
        -0x4000_0000_0000_0000_0000_0000_0000_0000 <= n,
    ensures
        q == n as int / d as int,
{
    if n >= 0 {
        let qq = (n as u128) / (d as u128);
        proof {
            assert(qq == n as int / d as int);
        }
        qq as i128
    } else {
        let m = (-n) as u128;
        let qq = m / (d as u128);
        let rr = m % (d as u128);
        proof {
            vstd::arithmetic::div_mod::lemma_fundamental_div_mod(m as int, d as int);
            if rr == 0 {
                assert(n == (-(qq as int)) * d + 0) by (nonlinear_arith)
                    requires m == qq * d && n == -(m as int);
                vstd::arithmetic::div_mod::lemma_fundamental_div_mod_converse(
                    n as int, d as int, -(qq as int), 0);
            } else {
                assert(n == (-(qq as int) - 1) * d + (d - rr)) by (nonlinear_arith)
                    requires m == qq * d + rr && n == -(m as int);
                vstd::arithmetic::div_mod::lemma_fundamental_div_mod_converse(
                    n as int, d as int, -(qq as int) - 1, d - rr);
            }
        }
        if rr == 0 {
            -(qq as i128)
        } else {
            -(qq as i128) - 1
        }
    }
}

/// A barycentric combination with weights of the sign of `d` summing to `d`
/// stays between `d` times a common lower and upper bound of its three values.
proof fn lemma_convex3_bound(u: int, v: int, d: int, z0: int, z1: int, z2: int, lo: int, hi: int)
    by (nonlinear_arith)
    requires
        d != 0,
        d > 0 ==> u >= 0 && v >= 0 && u + v <= d,
        d < 0 ==> u <= 0 && v <= 0 && u + v >= d,
        lo <= z0 <= hi,
        lo <= z1 <= hi,
        lo <= z2 <= hi,
    ensures
        d > 0 ==> d * lo <= (d - u - v) * z0 + u * z1 + v * z2 <= d * hi,
        d < 0 ==> d * hi <= (d - u - v) * z0 + u * z1 + v * z2 <= d * lo,
{
}

/// The interpolated depth lies between the least and the greatest of the
/// three vertex depths wherever the pixel is inside the triangle.
pub proof fn lemma_interp_depth_bounds(px: int, py: int, v0: ScreenVertex, v1: ScreenVertex, v2: ScreenVertex)
    requires
        inside_tri_at(px, py, v0.p, v1.p, v2.p),
    ensures
        min3(v0.z as int, v1.z as int, v2.z as int) <= interp_depth(px, py, v0, v1, v2)
            <= max3(v0.z as int, v1.z as int, v2.z as int),
{
    let u = bary_u(px, py, v0.p, v1.p, v2.p);
    let v = bary_v(px, py, v0.p, v1.p, v2.p);
    let d = bary_det(v0.p, v1.p, v2.p);
    let n = (d - u - v) * v0.z + u * v1.z + v * v2.z;
    let lo = min3(v0.z as int, v1.z as int, v2.z as int);
    let hi = max3(v0.z as int, v1.z as int, v2.z as int);
    lemma_convex3_bound(u, v, d, v0.z as int, v1.z as int, v2.z as int, lo, hi);
    if d > 0 {
        assert(d * lo <= n <= d * hi);
        vstd::arithmetic::div_mod::lemma_div_multiples_vanish(lo, d);
        vstd::arithmetic::div_mod::lemma_div_multiples_vanish(hi, d);
        vstd::arithmetic::div_mod::lemma_div_is_ordered(d * lo, n, d);
        vstd::arithmetic::div_mod::lemma_div_is_ordered(n, d * hi, d);
    } else {
        assert((-d) * lo <= -n <= (-d) * hi) by (nonlinear_arith)
            requires d * hi <= n <= d * lo;
        vstd::arithmetic::div_mod::lemma_div_multiples_vanish(lo, -d);
        vstd::arithmetic::div_mod::lemma_div_multiples_vanish(hi, -d);
        vstd::arithmetic::div_mod::lemma_div_is_ordered((-d) * lo, -n, -d);
        vstd::arithmetic::div_mod::lemma_div_is_ordered(-n, (-d) * hi, -d);
    }
}

/// How one depth-buffered triangle fill relates the raster surface and depth
/// buffer before the call to those after it: a pixel inside the triangle
/// whose interpolated depth beats the buffered depth takes the color and the
/// new depth; every other pixel and buffer slot is unchanged.
pub open spec fn zbuffer_fill_rel(
    img0: Image, zb0: Seq<i64>, img1: Image, zb1: Seq<i64>,
    v0: ScreenVertex, v1: ScreenVertex, v2: ScreenVertex, color: Color,
) -> bool {
    &&& img1.same_dims(img0)
    &&& img1.pixels@.len() == img0.pixels@.len()
    &&& zb1.len() == zb0.len()
    &&& forall|x: int, y: int| img0.in_bounds(x, y) ==> {
        let i = grid_index(img0.width as int, x, y);
        if inside_tri_at(x, y, v0.p, v1.p, v2.p) && interp_depth(x, y, v0, v1, v2) > zb0[i] {
            img1.pix(x, y) == color && zb1[i] == interp_depth(x, y, v0, v1, v2)
        } else {
            img1.pix(x, y) == img0.pix(x, y) && zb1[i] == zb0[i]
        }
    }
}

/// At uniform vertex depths the interpolated depth of a non-degenerate
/// triangle is that depth, at every pixel.
pub proof fn lemma_interp_depth_uniform(px: int, py: int, v0: ScreenVertex, v1: ScreenVertex, v2: ScreenVertex, z: i64)
    requires
        bary_det(v0.p, v1.p, v2.p) != 0,
        v0.z == z,
        v1.z == z,
        v2.z == z,
    ensures
        interp_depth(px, py, v0, v1, v2) == z,
{
    let u = bary_u(px, py, v0.p, v1.p, v2.p);
    let v = bary_v(px, py, v0.p, v1.p, v2.p);
    let d = bary_det(v0.p, v1.p, v2.p);
    let n = (d - u - v) * v0.z + u * v1.z + v * v2.z;
    assert(n == d * z && -n == (-d) * z) by (nonlinear_arith)
        requires n == (d - u - v) * z + u * z + v * z;
    if d > 0 {
        vstd::arithmetic::div_mod::lemma_div_multiples_vanish(z as int, d);
        assert(d * (z as int) == n);
    } else {
        vstd::arithmetic::div_mod::lemma_div_multiples_vanish(z as int, -d);
        assert((-d) * (z as int) == -n);
    }
}

/// Law: over a fresh depth buffer (every slot at the smallest depth), one
/// depth-buffered fill of a non-degenerate triangle of uniform depth paints
/// every pixel strictly inside the triangle with the triangle's color and
/// the uniform depth, and changes no pixel and no buffer slot outside the
/// triangle.
pub proof fn lemma_zbuffer_fill_covers(
    img0: Image, zb0: Seq<i64>, img1: Image, zb1: Seq<i64>,
    v0: ScreenVertex, v1: ScreenVertex, v2: ScreenVertex, color: Color, z: i64,
)
    requires
        img0.wf(),
        zb0.len() == img0.width * img0.height,
        zbuffer_fill_rel(img0, zb0, img1, zb1, v0, v1, v2, color),
        bary_det(v0.p, v1.p, v2.p) != 0,
        v0.z == z,
        v1.z == z,
        v2.z == z,
        z > i64::MIN,
        forall|k: int| 0 <= k < zb0.len() ==> zb0[k] == i64::MIN,
    ensures
        forall|x: int, y: int|
            img0.in_bounds(x, y) && strictly_inside_tri_at(x, y, v0.p, v1.p, v2.p) ==>
                img1.pix(x, y) == color
                && zb1[grid_index(img0.width as int, x, y)] == z,
        forall|x: int, y: int|
            img0.in_bounds(x, y) && !inside_tri_at(x, y, v0.p, v1.p, v2.p) ==>
                img1.pix(x, y) == img0.pix(x, y)
                && zb1[grid_index(img0.width as int, x, y)]
                    == zb0[grid_index(img0.width as int, x, y)],
{
    assert forall|x: int, y: int|
        img0.in_bounds(x, y) && strictly_inside_tri_at(x, y, v0.p, v1.p, v2.p) implies
        img1.pix(x, y) == color
        && zb1[grid_index(img0.width as int, x, y)] == z by {
        lemma_grid_index_bounds(img0.width as int, img0.height as int, x, y);
        lemma_interp_depth_uniform(x, y, v0, v1, v2, z);
        assert(inside_tri_at(x, y, v0.p, v1.p, v2.p));
    }
}

/// Law: depth-buffered filling is idempotent. Filling the same triangle at
/// the same depths a second time changes neither the pixels nor the depth
/// buffer, because only a strictly greater depth writes.
pub proof fn lemma_zbuffer_fill_idempotent(
    img0: Image, zb0: Seq<i64>,
    img1: Image, zb1: Seq<i64>,
    img2: Image, zb2: Seq<i64>,
    v0: ScreenVertex, v1: ScreenVertex, v2: ScreenVertex, color: Color,
)
    requires
        img0.wf(),
        zb0.len() == img0.width * img0.height,
        zbuffer_fill_rel(img0, zb0, img1, zb1, v0, v1, v2, color),
        zbuffer_fill_rel(img1, zb1, img2, zb2, v0, v1, v2, color),
    ensures
        img2.pixels@ == img1.pixels@,
        zb2 == zb1,
{
    let w = img0.width as int;
    let h = img0.height as int;
    assert forall|x: int, y: int| img0.in_bounds(x, y) implies
        img2.pix(x, y) == img1.pix(x, y)
        && zb2[grid_index(w, x, y)] == zb1[grid_index(w, x, y)] by {
        lemma_grid_index_bounds(w, h, x, y);
        assert(img1.in_bounds(x, y));
    }
    assert forall|k: int| 0 <= k < zb1.len() implies zb2[k] == zb1[k] by {
        assert(w > 0 && h > 0) by (nonlinear_arith)
            requires 0 <= w, 0 <= h, w * h > 0;
        lemma_grid_index_inverse(w, h, k);
        let x = k % w;
        let y = k / w;
        assert(img0.in_bounds(x, y));
        assert(zb2[grid_index(w, x, y)] == zb1[grid_index(w, x, y)]);
    }
    assert forall|k: int| 0 <= k < img1.pixels@.len() implies
        img2.pixels@[k] == img1.pixels@[k] by {
        assert(w > 0 && h > 0) by (nonlinear_arith)
            requires 0 <= w, 0 <= h, w * h > 0;
        lemma_grid_index_inverse(w, h, k);
        let x = k % w;
        let y = k / w;
        assert(img2.pix(x, y) == img1.pix(x, y));
    }
    assert(img2.pixels@ =~= img1.pixels@);
    assert(zb2 =~= zb1);
}

/// The product of a barycentric numerator and a bounded depth stays well
/// inside 128 bits.
proof fn lemma_depth_product_bound(a: int, b: int)
    by (nonlinear_arith)
    requires
        -0x10_0000_0000_0000_0000 <= a <= 0x10_0000_0000_0000_0000,
        -0x100_0000_0000 <= b <= 0x100_0000_0000,
    ensures
        -0x1000_0000_0000_0000_0000_0000_0000 <= a * b <= 0x1000_0000_0000_0000_0000_0000_0000,
{
}

/// The interpolated depth of the triangle `(v0, v1, v2)` at the pixel
/// `(x, y)`, computed exactly.
fn interp_depth_at(x: i32, y: i32, v0: ScreenVertex, v1: ScreenVertex, v2: ScreenVertex) -> (z: i64)
    requires
        inside_tri_at(x as int, y as int, v0.p, v1.p, v2.p),
        -DEPTH_LIMIT <= v0.z <= DEPTH_LIMIT,
        -DEPTH_LIMIT <= v1.z <= DEPTH_LIMIT,
        -DEPTH_LIMIT <= v2.z <= DEPTH_LIMIT,
    ensures
        z == interp_depth(x as int, y as int, v0, v1, v2),
{
    let (a, b, c) = (v0.p, v1.p, v2.p);
    let abx: i64 = b.x as i64 - a.x as i64;
    let aby: i64 = b.y as i64 - a.y as i64;
    let acx: i64 = c.x as i64 - a.x as i64;
    let acy: i64 = c.y as i64 - a.y as i64;
    let pax: i64 = a.x as i64 - x as i64;
    let pay: i64 = a.y as i64 - y as i64;

    let u: i128 = mul_wide(acx, pay) - mul_wide(acy, pax);
    let v: i128 = mul_wide(pax, aby) - mul_wide(abx, pay);
    let d: i128 = mul_wide(abx, acy) - mul_wide(acx, aby);
    let w0: i128 = d - u - v;

    proof {
        lemma_depth_product_bound(w0 as int, v0.z as int);
        lemma_depth_product_bound(u as int, v1.z as int);
        lemma_depth_product_bound(v as int, v2.z as int);
    }
    let n: i128 = w0 * (v0.z as i128) + u * (v1.z as i128) + v * (v2.z as i128);

    let q: i128 = if d > 0 {
        floor_div(n, d)
    } else {
        floor_div(-n, -d)
    };
    proof {
        lemma_interp_depth_bounds(x as int, y as int, v0, v1, v2);
    }
    q as i64
}

impl Image {
    /// Fill the triangle `(v0, v1, v2)` with `color` under control of the
    /// depth buffer `zbuffer`: scan the triangle's bounding box, clamped to
    /// the frame and padded by a small margin, and at every grid point whose
    /// barycentric weights are all at least zero compare the interpolated
    /// depth with the buffered one; the pixel and the buffer slot change
    /// exactly where the new depth is strictly greater (strictly closer to
    /// the camera).
    pub fn triangle_zbuffer(
        &mut self,
        zbuffer: &mut Vec<i64>,
        triangle: (ScreenVertex, ScreenVertex, ScreenVertex),
        color: Color,
    )
        requires
            old(self).wf(),
            old(zbuffer)@.len() == old(self).width * old(self).height,
            -DEPTH_LIMIT <= triangle.0.z <= DEPTH_LIMIT,
            -DEPTH_LIMIT <= triangle.1.z <= DEPTH_LIMIT,
            -DEPTH_LIMIT <= triangle.2.z <= DEPTH_LIMIT,
        ensures
            final(self).wf(),
            zbuffer_fill_rel(
                *old(self), old(zbuffer)@, *final(self), final(zbuffer)@,
                triangle.0, triangle.1, triangle.2, color,
            ),
    {
        let (v0, v1, v2) = triangle;
        let (p0, p1, p2) = (v0.p, v1.p, v2.p);
        let w = self.width;
        let h = self.height;

        let mut min_x: i64 = min3_i32(p0.x, p1.x, p2.x) as i64 - 10;
        let mut max_x: i64 = max3_i32(p0.x, p1.x, p2.x) as i64 + 10;
        let mut min_y: i64 = min3_i32(p0.y, p1.y, p2.y) as i64 - 10;
        let mut max_y: i64 = max3_i32(p0.y, p1.y, p2.y) as i64 + 10;
        if min_x < 0 {
            min_x = 0;
        }
        if max_x > w as i64 - 1 {
            max_x = w as i64 - 1;
        }
        if min_y < 0 {
            min_y = 0;
        }
        if max_y > h as i64 - 1 {
            max_y = h as i64 - 1;
        }

        proof {
            assert forall|xx: int, yy: int|
                old(self).in_bounds(xx, yy) && #[trigger] inside_tri_at(xx, yy, p0, p1, p2) implies
                min_x <= xx <= max_x && min_y <= yy <= max_y by {
                lemma_inside_in_bbox(xx, yy, p0, p1, p2);
            }
        }

        let mut x: i64 = min_x;
        while x <= max_x
            invariant
                forall|xx: int, yy: int|
                    old(self).in_bounds(xx, yy) && #[trigger] inside_tri_at(xx, yy, p0, p1, p2) ==>
                    min_x <= xx <= max_x && min_y <= yy <= max_y,
                p0 == v0.p && p1 == v1.p && p2 == v2.p,
                old(self).wf(),
                self.wf(),
                self.same_dims(*old(self)),
                w == self.width,
                h == self.height,
                zbuffer@.len() == old(zbuffer)@.len(),
                old(zbuffer)@.len() == w * h,
                -DEPTH_LIMIT <= v0.z <= DEPTH_LIMIT,
                -DEPTH_LIMIT <= v1.z <= DEPTH_LIMIT,
                -DEPTH_LIMIT <= v2.z <= DEPTH_LIMIT,
                0 <= min_x,
                max_x <= w - 1,
                0 <= min_y,
                max_y <= h - 1,
                min_x <= x,
                x <= max_x + 1 || x == min_x,
                forall|xx: int, yy: int| old(self).in_bounds(xx, yy) ==> {
                    let i = grid_index(w as int, xx, yy);
                    if inside_tri_at(xx, yy, p0, p1, p2)
                        && interp_depth(xx, yy, v0, v1, v2) > old(zbuffer)@[i]
                        && xx < x {
                        self.pix(xx, yy) == color
                            && zbuffer@[i] == interp_depth(xx, yy, v0, v1, v2)
                    } else {
                        self.pix(xx, yy) == old(self).pix(xx, yy)
                            && zbuffer@[i] == old(zbuffer)@[i]
                    }
                },
            decreases max_x + 1 - x,
        {
            let mut y: i64 = min_y;
            while y <= max_y
                invariant
                    forall|xx: int, yy: int|
                        old(self).in_bounds(xx, yy) && #[trigger] inside_tri_at(xx, yy, p0, p1, p2) ==>
                        min_x <= xx <= max_x && min_y <= yy <= max_y,
                    p0 == v0.p && p1 == v1.p && p2 == v2.p,
                    old(self).wf(),
                    self.wf(),
                    self.same_dims(*old(self)),
                    w == self.width,
                    h == self.height,
                    zbuffer@.len() == old(zbuffer)@.len(),
                    old(zbuffer)@.len() == w * h,
                    -DEPTH_LIMIT <= v0.z <= DEPTH_LIMIT,
                    -DEPTH_LIMIT <= v1.z <= DEPTH_LIMIT,
                    -DEPTH_LIMIT <= v2.z <= DEPTH_LIMIT,
                    0 <= min_x <= x <= max_x <= w - 1,
                    0 <= min_y <= y,
                    y <= max_y + 1 || y == min_y,
                    max_y <= h - 1,
                    forall|xx: int, yy: int| old(self).in_bounds(xx, yy) ==> {
                        let i = grid_index(w as int, xx, yy);
                        if inside_tri_at(xx, yy, p0, p1, p2)
                            && interp_depth(xx, yy, v0, v1, v2) > old(zbuffer)@[i]
                            && (xx < x || (xx == x && yy < y)) {
                            self.pix(xx, yy) == color
                                && zbuffer@[i] == interp_depth(xx, yy, v0, v1, v2)
                        } else {
                            self.pix(xx, yy) == old(self).pix(xx, yy)
                                && zbuffer@[i] == old(zbuffer)@[i]
                        }
                    },
                decreases max_y + 1 - y,
            {
                let p = Point { x: x as i32, y: y as i32 };
                let ghost prev = *self;
                let ghost prevzb = zbuffer@;
                proof {
                    lemma_grid_index_bounds(w as int, h as int, p.x as int, p.y as int);
                }
                if inside_triangle(p, (p0, p1, p2)) {
                    let z = interp_depth_at(p.x, p.y, v0, v1, v2);
                    let i = (p.y * w + p.x) as usize;
                    if zbuffer[i] < z {
                        zbuffer.set(i, z);
                        self.set(p, color);
                    }
                }
                proof {
                    assert forall|xx: int, yy: int| old(self).in_bounds(xx, yy) implies {
                        let i = grid_index(w as int, xx, yy);
                        if inside_tri_at(xx, yy, p0, p1, p2)
                            && interp_depth(xx, yy, v0, v1, v2) > old(zbuffer)@[i]
                            && (xx < x || (xx == x && yy < y + 1)) {
                            self.pix(xx, yy) == color
                                && zbuffer@[i] == interp_depth(xx, yy, v0, v1, v2)
                        } else {
                            self.pix(xx, yy) == old(self).pix(xx, yy)
                                && zbuffer@[i] == old(zbuffer)@[i]
                        }
                    } by {
                        lemma_grid_index_bounds(w as int, h as int, xx, yy);
                        if xx != p.x || yy != p.y {
                            lemma_grid_index_distinct(w as int, xx, yy, p.x as int, p.y as int);
                        }
                    }
                }
                y = y + 1;
            }
            x = x + 1;
        }
        proof {
            assert forall|xx: int, yy: int| old(self).in_bounds(xx, yy) implies {
                let i = grid_index(w as int, xx, yy);
                if inside_tri_at(xx, yy, p0, p1, p2)
                    && interp_depth(xx, yy, v0, v1, v2) > old(zbuffer)@[i] {
                    self.pix(xx, yy) == color
                        && zbuffer@[i] == interp_depth(xx, yy, v0, v1, v2)
                } else {
                    self.pix(xx, yy) == old(self).pix(xx, yy)
                        && zbuffer@[i] == old(zbuffer)@[i]
                }
            } by {
                lemma_grid_index_bounds(w as int, h as int, xx, yy);
            }
        }
    }
}

} // verus!
