use vstd::prelude::*;

use crate::color::Color;
use crate::geom::Point;
use crate::geom::inside_tri_at;
use crate::geom::inside_triangle;
use crate::geom::lemma_inside_in_bbox;
use crate::geom::max3;
use crate::geom::min3;

verus! {

/// The least of three pixel coordinates.
pub(crate) fn min3_i32(x: i32, y: i32, z: i32) -> (r: i32)
    ensures
        r == min3(x as int, y as int, z as int),
{
    if x <= y && x <= z {
        x
    } else if y <= z {
        y
    } else {
        z
    }
}

/// The greatest of three pixel coordinates.
pub(crate) fn max3_i32(x: i32, y: i32, z: i32) -> (r: i32)
    ensures
        r == max3(x as int, y as int, z as int),
{
    if x >= y && x >= z {
        x
    } else if y >= z {
        y
    } else {
        z
    }
}

/// A raster surface: a `width` by `height` grid of RGB pixels stored in
/// row-major order, origin at the top-left corner, y growing downward.
pub struct Image {
    pub width: i32,
    pub height: i32,
    pub pixels: Vec<Color>,
}

/// The grid index of a pixel position in a row-major pixel array.
pub open spec fn grid_index(width: int, x: int, y: int) -> int {
    y * width + x
}

/// The row-major pixel index stays inside the pixel array.
pub proof fn lemma_grid_index_bounds(w: int, h: int, x: int, y: int)
    by (nonlinear_arith)
    requires
        0 <= x < w,
        0 <= y < h,
    ensures
        0 <= y * w + x < w * h,
{
}

/// Distinct pixel positions on the same grid occupy distinct array slots.
pub proof fn lemma_grid_index_distinct(w: int, x1: int, y1: int, x2: int, y2: int)
    by (nonlinear_arith)
    requires
        0 <= x1 < w,
        0 <= x2 < w,
        !(x1 == x2 && y1 == y2),
    ensures
        y1 * w + x1 != y2 * w + x2,
{
}

/// The row and column of a pixel are recovered from its row-major index by
/// division and remainder.
pub proof fn lemma_grid_divmod(w: int, x: int, y: int)
    requires
        0 <= x < w,
        0 <= y,
    ensures
        (y * w + x) / w == y,
        (y * w + x) % w == x,
{
    vstd::arithmetic::div_mod::lemma_fundamental_div_mod_converse(y * w + x, w, y, x);
}

/// A row-major index is the grid index of the pixel position recovered from
/// it by division and remainder.
pub proof fn lemma_grid_index_inverse(w: int, h: int, k: int)
    requires
        0 < w,
        0 <= k < w * h,
    ensures
        0 <= k % w < w,
        0 <= k / w < h,
        grid_index(w, k % w, k / w) == k,
{
    vstd::arithmetic::div_mod::lemma_fundamental_div_mod(k, w);
    vstd::arithmetic::div_mod::lemma_mod_bound(k, w);
    vstd::arithmetic::div_mod::lemma_div_pos_is_pos(k, w);
    assert((k / w) * w + k % w == k && k / w < h) by (nonlinear_arith)
        requires
            0 < w,
            0 <= k < w * h,
            k == w * (k / w) + k % w,
            0 <= k % w < w,
            0 <= k / w,
    ;
}

impl Image {
    /// The structural invariant of a raster surface: nonnegative dimensions
    /// whose product fits the index arithmetic and matches the length of the
    /// pixel array.
    pub open spec fn wf(self) -> bool {
        &&& 0 <= self.width
        &&& 0 <= self.height
        &&& self.width * self.height <= i32::MAX
        &&& self.pixels@.len() == self.width * self.height
    }

    /// The position `(x, y)` lies on the grid.
    pub open spec fn in_bounds(self, x: int, y: int) -> bool {
        0 <= x < self.width && 0 <= y < self.height
    }

    /// The pixel stored at position `(x, y)`.
    pub open spec fn pix(self, x: int, y: int) -> Color {
        self.pixels@[grid_index(self.width as int, x, y)]
    }

    /// The image keeps the dimensions of `other`.
    pub open spec fn same_dims(self, other: Image) -> bool {
        self.width == other.width && self.height == other.height
    }

    /// Create a `width` by `height` image with every pixel black.
    pub fn new(width: i32, height: i32) -> (r: Image)
        requires
            0 <= width,
            0 <= height,
            width * height <= i32::MAX,
        ensures
            r.wf(),
            r.width == width,
            r.height == height,
            forall|x: int, y: int| r.in_bounds(x, y) ==> r.pix(x, y) == (Color { r: 0, g: 0, b: 0 }),
    {
        let size = (width * height) as usize;
        let mut pixels: Vec<Color> = Vec::new();
        let mut i: usize = 0;
        while i < size
            invariant
                i <= size,
                pixels@.len() == i,
                forall|k: int| 0 <= k < i ==> pixels@[k] == (Color { r: 0, g: 0, b: 0 }),
            decreases size - i,
        {
            pixels.push(Color { r: 0, g: 0, b: 0 });
            i = i + 1;
        }
        let r = Image { width, height, pixels };
        proof {
            assert forall|x: int, y: int| r.in_bounds(x, y) implies
                r.pix(x, y) == (Color { r: 0, g: 0, b: 0 }) by {
                lemma_grid_index_bounds(width as int, height as int, x, y);
            }
        }
        r
    }

    /// Set the pixel at `(p.x, p.y)` to `color`; a position off the grid is
    /// left untouched.
    pub fn set(&mut self, p: Point, color: Color)
        requires
            old(self).wf(),
        ensures
            final(self).wf(),
            final(self).same_dims(*old(self)),
            old(self).in_bounds(p.x as int, p.y as int) ==> final(self).pixels@
                == old(self).pixels@.update(grid_index(old(self).width as int, p.x as int, p.y as int), color),
            !old(self).in_bounds(p.x as int, p.y as int) ==> final(self).pixels@ == old(self).pixels@,
    {
        if 0 <= p.x && p.x < self.width && 0 <= p.y && p.y < self.height {
            proof {
                lemma_grid_index_bounds(self.width as int, self.height as int, p.x as int, p.y as int);
            }
            let i = (p.y * self.width + p.x) as usize;
            self.pixels.set(i, color);
        }
    }

    /// The pixel at `(p.x, p.y)`, or nothing for a position off the grid.
    pub fn get(&self, p: Point) -> (r: Option<Color>)
        requires
            self.wf(),
        ensures
            r == if self.in_bounds(p.x as int, p.y as int) {
                Some(self.pix(p.x as int, p.y as int))
            } else {
                None::<Color>
            },
    {
        if 0 <= p.x && p.x < self.width && 0 <= p.y && p.y < self.height {
            proof {
                lemma_grid_index_bounds(self.width as int, self.height as int, p.x as int, p.y as int);
            }
            Some(self.pixels[(p.y * self.width + p.x) as usize])
        } else {
            None
        }
    }

    /// Set every pixel of the image to `color`.
    pub fn clear(&mut self, color: Color)
        requires
            old(self).wf(),
        ensures
            final(self).wf(),
            final(self).same_dims(*old(self)),
            final(self).pixels@.len() == old(self).pixels@.len(),
            forall|k: int| 0 <= k < final(self).pixels@.len() ==> final(self).pixels@[k] == color,
    {
        let n = self.pixels.len();
        let mut i: usize = 0;
        while i < n
            invariant
                i <= n,
                self.pixels@.len() == n,
                self.width == old(self).width,
                self.height == old(self).height,
                old(self).wf(),
                forall|k: int| 0 <= k < i ==> self.pixels@[k] == color,
            decreases n - i,
        {
            self.pixels.set(i, color);
            i = i + 1;
        }
    }

    /// Fill the triangle `(p0, p1, p2)` with `color`: scan the triangle's
    /// bounding box and set every grid point whose barycentric weights are
    /// all at least zero. Every other pixel is left untouched; a degenerate
    /// triangle changes nothing.
    pub fn triangle(&mut self, triangle: (Point, Point, Point), color: Color)
        requires
            old(self).wf(),
        ensures
            final(self).wf(),
            final(self).same_dims(*old(self)),
            forall|x: int, y: int| old(self).in_bounds(x, y) ==> final(self).pix(x, y) == (
                if inside_tri_at(x, y, triangle.0, triangle.1, triangle.2) {
                    color
                } else {
                    old(self).pix(x, y)
                }),
    {
        let (p0, p1, p2) = triangle;
        let min_x: i64 = min3_i32(p0.x, p1.x, p2.x) as i64;
        let max_x: i64 = max3_i32(p0.x, p1.x, p2.x) as i64;
        let min_y: i64 = min3_i32(p0.y, p1.y, p2.y) as i64;
        let max_y: i64 = max3_i32(p0.y, p1.y, p2.y) as i64;

        proof {
            assert(min_x <= max_x);
            assert forall|xx: int, yy: int| #[trigger] inside_tri_at(xx, yy, p0, p1, p2) implies
                min_x <= xx <= max_x && min_y <= yy <= max_y by {
                lemma_inside_in_bbox(xx, yy, p0, p1, p2);
            }
        }
        let mut x: i64 = min_x;
        while x <= max_x
            invariant
                forall|xx: int, yy: int| #[trigger] inside_tri_at(xx, yy, p0, p1, p2) ==>
                    min_x <= xx <= max_x && min_y <= yy <= max_y,
                old(self).wf(),
                self.wf(),
                self.same_dims(*old(self)),
                min_x == min3(p0.x as int, p1.x as int, p2.x as int),
                max_x == max3(p0.x as int, p1.x as int, p2.x as int),
                min_y == min3(p0.y as int, p1.y as int, p2.y as int),
                max_y == max3(p0.y as int, p1.y as int, p2.y as int),
                min_x <= x <= max_x + 1,
                forall|xx: int, yy: int| old(self).in_bounds(xx, yy) ==> self.pix(xx, yy) == (
                    if inside_tri_at(xx, yy, p0, p1, p2) && xx < x {
                        color
                    } else {
                        old(self).pix(xx, yy)
                    }),
            decreases max_x + 1 - x,
        {
            let mut y: i64 = min_y;
            while y <= max_y
                invariant
                    forall|xx: int, yy: int| #[trigger] inside_tri_at(xx, yy, p0, p1, p2) ==>
                        min_x <= xx <= max_x && min_y <= yy <= max_y,
                    old(self).wf(),
                    self.wf(),
                    self.same_dims(*old(self)),
                    min_y == min3(p0.y as int, p1.y as int, p2.y as int),
                    max_y == max3(p0.y as int, p1.y as int, p2.y as int),
                    min_x <= x <= max_x,
                    i32::MIN <= x <= i32::MAX,
                    min_y <= y <= max_y + 1,
                    forall|xx: int, yy: int| old(self).in_bounds(xx, yy) ==> self.pix(xx, yy) == (
                        if inside_tri_at(xx, yy, p0, p1, p2) && (xx < x || (xx == x && yy < y)) {
                            color
                        } else {
                            old(self).pix(xx, yy)
                        }),
                decreases max_y + 1 - y,
            {
                let p = Point { x: x as i32, y: y as i32 };
                let ghost prev = *self;
                if inside_triangle(p, (p0, p1, p2)) {
                    self.set(p, color);
                }
                proof {
                    let w = self.width as int;
                    assert forall|xx: int, yy: int| old(self).in_bounds(xx, yy) implies
                        self.pix(xx, yy) == (
                        if inside_tri_at(xx, yy, p0, p1, p2) && (xx < x || (xx == x && yy < y + 1)) {
                            color
                        } else {
                            old(self).pix(xx, yy)
                        }) by {
                        lemma_grid_index_bounds(w, self.height as int, xx, yy);
                        if prev.in_bounds(p.x as int, p.y as int) {
                            lemma_grid_index_bounds(w, self.height as int, p.x as int, p.y as int);
                            if xx != p.x || yy != p.y {
                                lemma_grid_index_distinct(w, xx, yy, p.x as int, p.y as int);
                            }
                        }
                    }
                }
                y = y + 1;
            }
            x = x + 1;
        }
        proof {
            assert forall|xx: int, yy: int| old(self).in_bounds(xx, yy) implies
                final(self).pix(xx, yy) == (
                if inside_tri_at(xx, yy, p0, p1, p2) {
                    color
                } else {
                    old(self).pix(xx, yy)
                }) by {
                if inside_tri_at(xx, yy, p0, p1, p2) {
                    lemma_inside_in_bbox(xx, yy, p0, p1, p2);
                }
            }
        }
    }

    /// Mirror the image top to bottom: afterwards the pixel at `(x, y)` holds
    /// what the pixel at `(x, height - 1 - y)` held before.
    pub fn flip_vertically(&mut self)
        requires
            old(self).wf(),
        ensures
            final(self).wf(),
            final(self).same_dims(*old(self)),
            forall|x: int, y: int| final(self).in_bounds(x, y) ==>
                final(self).pix(x, y) == old(self).pix(x, old(self).height - 1 - y),
    {
        let w = self.width;
        let h = self.height;
        let mut pixels: Vec<Color> = Vec::new();
        let mut yi: i32 = 0;
        while yi < h
            invariant
                self == old(self),
                self.wf(),
                w == self.width,
                h == self.height,
                0 <= yi <= h,
                pixels@.len() == yi * w,
                forall|k: int| 0 <= k < pixels@.len() ==>
                    pixels@[k] == self.pix(k % (w as int), h - 1 - k / (w as int)),
            decreases h - yi,
        {
            let mut xi: i32 = 0;
            while xi < w
                invariant
                    self == old(self),
                    self.wf(),
                    w == self.width,
                    h == self.height,
                    0 <= yi < h,
                    0 <= xi <= w,
                    pixels@.len() == yi * w + xi,
                    forall|k: int| 0 <= k < pixels@.len() ==>
                        pixels@[k] == self.pix(k % (w as int), h - 1 - k / (w as int)),
                decreases w - xi,
            {
                let p = self.get(Point { x: xi, y: h - 1 - yi });
                pixels.push(p.unwrap());
                proof {
                    lemma_grid_divmod(w as int, xi as int, yi as int);
                }
                xi = xi + 1;
            }
            proof {
                assert((yi + 1) * w == yi * w + w) by (nonlinear_arith);
            }
            yi = yi + 1;
        }
        proof {
            assert(w * h == h * w) by (nonlinear_arith);
        }
        self.pixels = pixels;
        proof {
            assert forall|x: int, y: int| final(self).in_bounds(x, y) implies
                final(self).pix(x, y) == old(self).pix(x, old(self).height - 1 - y) by {
                lemma_grid_index_bounds(w as int, h as int, x, y);
                lemma_grid_divmod(w as int, x, y);
            }
        }
    }

    /// Mirror the image left to right: afterwards the pixel at `(x, y)` holds
    /// what the pixel at `(width - 1 - x, y)` held before.
    pub fn flip_horizontally(&mut self)
        requires
            old(self).wf(),
        ensures
            final(self).wf(),
            final(self).same_dims(*old(self)),
            forall|x: int, y: int| final(self).in_bounds(x, y) ==>
                final(self).pix(x, y) == old(self).pix(old(self).width - 1 - x, y),
    {
        let w = self.width;
        let h = self.height;
        let mut pixels: Vec<Color> = Vec::new();
        let mut yi: i32 = 0;
        while yi < h
            invariant
                self == old(self),
                self.wf(),
                w == self.width,
                h == self.height,
                0 <= yi <= h,
                pixels@.len() == yi * w,
                forall|k: int| 0 <= k < pixels@.len() ==>
                    pixels@[k] == self.pix(w - 1 - k % (w as int), k / (w as int)),
            decreases h - yi,
        {
            let mut xi: i32 = 0;
            while xi < w
                invariant
                    self == old(self),
                    self.wf(),
                    w == self.width,
                    h == self.height,
                    0 <= yi < h,
                    0 <= xi <= w,
                    pixels@.len() == yi * w + xi,
                    forall|k: int| 0 <= k < pixels@.len() ==>
                        pixels@[k] == self.pix(w - 1 - k % (w as int), k / (w as int)),
                decreases w - xi,
            {
                let p = self.get(Point { x: w - 1 - xi, y: yi });
                pixels.push(p.unwrap());
                proof {
                    lemma_grid_divmod(w as int, xi as int, yi as int);
                }
                xi = xi + 1;
            }
            proof {
                assert((yi + 1) * w == yi * w + w) by (nonlinear_arith);
            }
            yi = yi + 1;
        }
        proof {
            assert(w * h == h * w) by (nonlinear_arith);
        }
        self.pixels = pixels;
        proof {
            assert forall|x: int, y: int| final(self).in_bounds(x, y) implies
                final(self).pix(x, y) == old(self).pix(old(self).width - 1 - x, y) by {
                lemma_grid_index_bounds(w as int, h as int, x, y);
                lemma_grid_divmod(w as int, x, y);
            }
        }
    }
}

} // verus!
