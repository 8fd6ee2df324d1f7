use vstd::prelude::*;

use crate::color::Color;
use crate::geom::Point;
use crate::image::Image;
use crate::image::grid_index;
use crate::image::lemma_grid_index_bounds;
use crate::image::lemma_grid_index_distinct;

verus! {

/// Absolute value of an integer coordinate difference.
pub open spec fn iabs(x: int) -> int {
    if x < 0 {
        -x
    } else {
        x
    }
}

/// The pixels plotted by one slope-adaptive Bresenham walk whose driving
/// axis is x: starting at column `x` in row `y` with accumulated error `e`,
/// walking right up to column `xr`. Each step adds `a` (twice the absolute
/// y-span) to the error; when the error exceeds `dxa` (the absolute x-span)
/// the row moves by `ystep` and the error drops by twice `dxa`.
pub open spec fn walk_x(x: int, xr: int, y: int, e: int, a: int, dxa: int, ystep: int) -> Set<(int, int)>
    decreases xr + 1 - x,
{
    if x > xr {
        Set::empty()
    } else {
        let e2 = e + a;
        let stepped = e2 > dxa;
        let y2 = if stepped { y + ystep } else { y };
        let e3 = if stepped { e2 - 2 * dxa } else { e2 };
        walk_x(x + 1, xr, y2, e3, a, dxa, ystep).insert((x, y))
    }
}

/// The pixels plotted by one slope-adaptive Bresenham walk whose driving
/// axis is y: starting at row `y` in column `x`, walking down to row `yr`.
pub open spec fn walk_y(y: int, yr: int, x: int, e: int, a: int, dya: int, xstep: int) -> Set<(int, int)>
    decreases yr + 1 - y,
{
    if y > yr {
        Set::empty()
    } else {
        let e2 = e + a;
        let stepped = e2 > dya;
        let x2 = if stepped { x + xstep } else { x };
        let e3 = if stepped { e2 - 2 * dya } else { e2 };
        walk_y(y + 1, yr, x2, e3, a, dya, xstep).insert((x, y))
    }
}

/// The set of pixels of the line segment from `p0` to `p1`. A single point
/// plots itself; a line no steeper than the diagonal is walked along the x
/// axis from its left endpoint; a steeper line is walked along the y axis
/// from its top endpoint. The walk starts at the same endpoint whichever
/// way round the segment is given.
pub open spec fn line_pixels(p0: Point, p1: Point) -> Set<(int, int)> {
    let dx = p1.x - p0.x;
    let dy = p1.y - p0.y;
    let adx = iabs(dx);
    let ady = iabs(dy);
    if dx == 0 && dy == 0 {
        Set::empty().insert((p0.x as int, p0.y as int))
    } else if ady <= adx {
        let l = if p0.x <= p1.x { p0 } else { p1 };
        let r = if p0.x <= p1.x { p1 } else { p0 };
        let ystep: int = if r.y > l.y { 1 } else { -1 };
        walk_x(l.x as int, r.x as int, l.y as int, 0, 2 * ady, adx, ystep)
    } else {
        let t = if p0.y <= p1.y { p0 } else { p1 };
        let b = if p0.y <= p1.y { p1 } else { p0 };
        let xstep: int = if b.x > t.x { 1 } else { -1 };
        walk_y(t.y as int, b.y as int, t.x as int, 0, 2 * adx, ady, xstep)
    }
}

/// Law: a line segment plots the same pixel set whichever way round its
/// endpoints are given.
pub proof fn lemma_line_pixels_symmetric(p0: Point, p1: Point)
    ensures
        line_pixels(p0, p1) == line_pixels(p1, p0),
{
    let dx = p1.x - p0.x;
    let dy = p1.y - p0.y;
    if dx == 0 && dy == 0 {
        assert(line_pixels(p0, p1) =~= line_pixels(p1, p0));
    } else if iabs(dy) <= iabs(dx) {
        assert(p0.x != p1.x);
    } else {
        assert(p0.y != p1.y);
    }
}

/// One plotting step: after setting the pixel at `p` of an image whose
/// pixels so far differ from `img0` exactly on the plotted set, the pixels
/// differ from `img0` exactly on the plotted set extended by `p`.
proof fn lemma_plot_step(img0: Image, prev: Image, cur: Image, plotted: Set<(int, int)>, p: Point, color: Color)
    requires
        img0.wf(),
        prev.wf(),
        prev.same_dims(img0),
        cur.same_dims(prev),
        forall|xx: int, yy: int| img0.in_bounds(xx, yy) ==> prev.pix(xx, yy) == (
            if plotted.contains((xx, yy)) {
                color
            } else {
                img0.pix(xx, yy)
            }),
        prev.in_bounds(p.x as int, p.y as int) ==> cur.pixels@
            == prev.pixels@.update(grid_index(prev.width as int, p.x as int, p.y as int), color),
        !prev.in_bounds(p.x as int, p.y as int) ==> cur.pixels@ == prev.pixels@,
    ensures
        forall|xx: int, yy: int| img0.in_bounds(xx, yy) ==> cur.pix(xx, yy) == (
            if plotted.insert((p.x as int, p.y as int)).contains((xx, yy)) {
                color
            } else {
                img0.pix(xx, yy)
            }),
{
    let w = img0.width as int;
    let h = img0.height as int;
    assert forall|xx: int, yy: int| img0.in_bounds(xx, yy) implies cur.pix(xx, yy) == (
        if plotted.insert((p.x as int, p.y as int)).contains((xx, yy)) {
            color
        } else {
            img0.pix(xx, yy)
        }) by {
        lemma_grid_index_bounds(w, h, xx, yy);
        if xx == p.x && yy == p.y {
            assert(prev.in_bounds(p.x as int, p.y as int));
            assert(cur.pix(xx, yy) == color);
        } else {
            if prev.in_bounds(p.x as int, p.y as int) {
                lemma_grid_index_bounds(w, h, p.x as int, p.y as int);
                lemma_grid_index_distinct(w, xx, yy, p.x as int, p.y as int);
            }
            assert(cur.pix(xx, yy) == prev.pix(xx, yy));
            assert(plotted.insert((p.x as int, p.y as int)).contains((xx, yy))
                == plotted.contains((xx, yy)));
        }
    }
}

impl Image {
    /// Draw the line segment from `p0` to `p1` in `color` with the
    /// slope-adaptive integer Bresenham walk: exactly the pixels of
    /// `line_pixels(p0, p1)` that lie on the grid change, each to `color`.
    /// The coordinate bound keeps the doubled error accumulator within
    /// 32-bit arithmetic.
    pub fn line(&mut self, p0: Point, p1: Point, color: Color)
        requires
            old(self).wf(),
            -0x1000_0000 <= p0.x <= 0x1000_0000,
            -0x1000_0000 <= p0.y <= 0x1000_0000,
            -0x1000_0000 <= p1.x <= 0x1000_0000,
            -0x1000_0000 <= p1.y <= 0x1000_0000,
        ensures
            final(self).wf(),
            final(self).same_dims(*old(self)),
            forall|x: int, y: int| old(self).in_bounds(x, y) ==> final(self).pix(x, y) == (
                if line_pixels(p0, p1).contains((x, y)) {
                    color
                } else {
                    old(self).pix(x, y)
                }),
    {
        let (x0, y0) = (p0.x, p0.y);
        let (x1, y1) = (p1.x, p1.y);
        let dx = x1 - x0;
        let dy = y1 - y0;
        let adx = if dx < 0 { -dx } else { dx };
        let ady = if dy < 0 { -dy } else { dy };
        let flip = ady > adx;

        let ghost pixset = line_pixels(p0, p1);
        let ghost mut plotted: Set<(int, int)> = Set::empty();

        if dx == 0 && dy == 0 {
            // A single point: both endpoints coincide.
            let ghost prev = *self;
            self.set(Point { x: x0, y: y0 }, color);
            proof {
                lemma_plot_step(prev, prev, *self, plotted, Point { x: x0, y: y0 }, color);
                plotted = plotted.insert((x0 as int, y0 as int));
                assert(pixset =~= plotted);
            }
        } else if !flip {
            // The line is no steeper than the diagonal: walk the x axis,
            // once for each traversal direction. Exactly one of the two
            // walks runs.
            let a3 = 2 * ady;

            // Left to right from p0.
            let mut y_: i32 = y0;
            let mut e3: i32 = 0;
            let mut x_: i32 = x0;
            proof {
                if x0 <= x1 {
                    assert(pixset == walk_x(x0 as int, x1 as int, y0 as int, 0, a3 as int, dx as int,
                        if y1 > y0 { 1int } else { -1 }));
                    assert(pixset =~= plotted.union(walk_x(x0 as int, x1 as int, y0 as int, 0,
                        a3 as int, dx as int, if y1 > y0 { 1int } else { -1 })));
                }
            }
            while x_ <= x1
                invariant
                    old(self).wf(),
                    self.wf(),
                    self.same_dims(*old(self)),
                    x0 < x1 || x_ > x1,
                    dx == x1 - x0,
                    dy == y1 - y0,
                    ady == iabs(dy as int),
                    ady <= dx || x_ > x1,
                    a3 == 2 * ady,
                    -0x1000_0000 <= x0 <= 0x1000_0000,
                    -0x1000_0000 <= y0 <= 0x1000_0000,
                    -0x1000_0000 <= x1 <= 0x1000_0000,
                    -0x1000_0000 <= y1 <= 0x1000_0000,
                    x0 <= x_ <= x1 + 1 || x_ == x0,
                    y0 - (x_ - x0) <= y_ <= y0 + (x_ - x0),
                    -dx < e3 <= dx || e3 == 0,
                    x0 > x1 ==> plotted == Set::<(int, int)>::empty(),
                    x_ <= x1 ==> pixset == plotted.union(
                        walk_x(x_ as int, x1 as int, y_ as int, e3 as int, a3 as int, dx as int,
                            if y1 > y0 { 1int } else { -1 })),
                    x_ > x1 && x0 <= x1 ==> pixset == plotted,
                    forall|xx: int, yy: int| old(self).in_bounds(xx, yy) ==> self.pix(xx, yy) == (
                        if plotted.contains((xx, yy)) {
                            color
                        } else {
                            old(self).pix(xx, yy)
                        }),
                decreases x1 + 1 - x_,
            {
                let p = Point { x: x_, y: y_ };
                let ghost prev = *self;
                let ghost xp = x_ as int;
                let ghost yp = y_ as int;
                let ghost ep = e3 as int;
                let ghost s: int = if y1 > y0 { 1int } else { -1 };
                self.set(p, color);
                proof {
                    lemma_plot_step(*old(self), prev, *self, plotted, p, color);
                    plotted = plotted.insert((xp, yp));
                }
                e3 = e3 + a3;
                if e3 > dx {
                    e3 = e3 - 2 * dx;
                    y_ = if dy > 0 { y_ + 1 } else { y_ - 1 };
                }
                x_ = x_ + 1;
                proof {
                    assert(walk_x(xp, x1 as int, yp, ep, a3 as int, dx as int, s)
                        == walk_x(x_ as int, x1 as int, y_ as int, e3 as int, a3 as int, dx as int, s)
                            .insert((xp, yp)));
                    assert(pixset =~= plotted.union(
                        walk_x(x_ as int, x1 as int, y_ as int, e3 as int, a3 as int, dx as int, s)));
                    if x_ > x1 {
                        assert(walk_x(x_ as int, x1 as int, y_ as int, e3 as int, a3 as int, dx as int, s)
                            =~= Set::<(int, int)>::empty());
                        assert(pixset =~= plotted);
                    }
                }
            }

            // Right to left input: walk left to right from p1.
            let mut y_: i32 = y1;
            let mut e3: i32 = 0;
            let mut x_: i32 = x1;
            proof {
                if x1 <= x0 {
                    assert(x1 < x0);
                    assert(pixset == walk_x(x1 as int, x0 as int, y1 as int, 0, a3 as int, (-dx) as int,
                        if y0 > y1 { 1int } else { -1 }));
                    assert(pixset =~= plotted.union(walk_x(x1 as int, x0 as int, y1 as int, 0,
                        a3 as int, (-dx) as int, if y0 > y1 { 1int } else { -1 })));
                }
            }
            while x_ <= x0
                invariant
                    old(self).wf(),
                    self.wf(),
                    self.same_dims(*old(self)),
                    x1 < x0 || x_ > x0,
                    dx == x1 - x0,
                    dy == y1 - y0,
                    ady == iabs(dy as int),
                    ady <= -dx || x_ > x0,
                    a3 == 2 * ady,
                    -0x1000_0000 <= x0 <= 0x1000_0000,
                    -0x1000_0000 <= y0 <= 0x1000_0000,
                    -0x1000_0000 <= x1 <= 0x1000_0000,
                    -0x1000_0000 <= y1 <= 0x1000_0000,
                    x1 <= x_ <= x0 + 1 || x_ == x1,
                    y1 - (x_ - x1) <= y_ <= y1 + (x_ - x1),
                    dx < e3 <= -dx || e3 == 0,
                    x_ <= x0 ==> pixset == plotted.union(
                        walk_x(x_ as int, x0 as int, y_ as int, e3 as int, a3 as int, (-dx) as int,
                            if y0 > y1 { 1int } else { -1 })),
                    x_ > x0 ==> pixset == plotted,
                    forall|xx: int, yy: int| old(self).in_bounds(xx, yy) ==> self.pix(xx, yy) == (
                        if plotted.contains((xx, yy)) {
                            color
                        } else {
                            old(self).pix(xx, yy)
                        }),
                decreases x0 + 1 - x_,
            {
                let p = Point { x: x_, y: y_ };
                let ghost prev = *self;
                let ghost xp = x_ as int;
                let ghost yp = y_ as int;
                let ghost ep = e3 as int;
                let ghost s: int = if y0 > y1 { 1int } else { -1 };
                self.set(p, color);
                proof {
                    lemma_plot_step(*old(self), prev, *self, plotted, p, color);
                    plotted = plotted.insert((xp, yp));
                }
                e3 = e3 + a3;
                if e3 > -dx {
                    e3 = e3 + 2 * dx;
                    y_ = if dy > 0 { y_ - 1 } else { y_ + 1 };
                }
                x_ = x_ + 1;
                proof {
                    assert(walk_x(xp, x0 as int, yp, ep, a3 as int, (-dx) as int, s)
                        == walk_x(x_ as int, x0 as int, y_ as int, e3 as int, a3 as int, (-dx) as int, s)
                            .insert((xp, yp)));
                    assert(pixset =~= plotted.union(
                        walk_x(x_ as int, x0 as int, y_ as int, e3 as int, a3 as int, (-dx) as int, s)));
                    if x_ > x0 {
                        assert(walk_x(x_ as int, x0 as int, y_ as int, e3 as int, a3 as int, (-dx) as int, s)
                            =~= Set::<(int, int)>::empty());
                        assert(pixset =~= plotted);
                    }
                }
            }
            proof {
                assert(pixset == plotted);
            }
        } else {
            // The line is steeper than the diagonal: the same two walks with
            // the x and y axes exchanged.
            let a3 = 2 * adx;

            // Top to bottom from p0.
            let mut x_: i32 = x0;
            let mut e3: i32 = 0;
            let mut y_: i32 = y0;
            proof {
                if y0 <= y1 {
                    assert(y0 < y1);
                    assert(pixset == walk_y(y0 as int, y1 as int, x0 as int, 0, a3 as int, dy as int,
                        if x1 > x0 { 1int } else { -1 }));
                    assert(pixset =~= plotted.union(walk_y(y0 as int, y1 as int, x0 as int, 0,
                        a3 as int, dy as int, if x1 > x0 { 1int } else { -1 })));
                }
            }
            while y_ <= y1
                invariant
                    old(self).wf(),
                    self.wf(),
                    self.same_dims(*old(self)),
                    y0 < y1 || y_ > y1,
                    dx == x1 - x0,
                    dy == y1 - y0,
                    adx == iabs(dx as int),
                    adx < dy || y_ > y1,
                    a3 == 2 * adx,
                    -0x1000_0000 <= x0 <= 0x1000_0000,
                    -0x1000_0000 <= y0 <= 0x1000_0000,
                    -0x1000_0000 <= x1 <= 0x1000_0000,
                    -0x1000_0000 <= y1 <= 0x1000_0000,
                    y0 <= y_ <= y1 + 1 || y_ == y0,
                    x0 - (y_ - y0) <= x_ <= x0 + (y_ - y0),
                    -dy < e3 <= dy || e3 == 0,
                    y0 > y1 ==> plotted == Set::<(int, int)>::empty(),
                    y_ <= y1 ==> pixset == plotted.union(
                        walk_y(y_ as int, y1 as int, x_ as int, e3 as int, a3 as int, dy as int,
                            if x1 > x0 { 1int } else { -1 })),
                    y_ > y1 && y0 <= y1 ==> pixset == plotted,
                    forall|xx: int, yy: int| old(self).in_bounds(xx, yy) ==> self.pix(xx, yy) == (
                        if plotted.contains((xx, yy)) {
                            color
                        } else {
                            old(self).pix(xx, yy)
                        }),
                decreases y1 + 1 - y_,
            {
                let p = Point { x: x_, y: y_ };
                let ghost prev = *self;
                let ghost xp = x_ as int;
                let ghost yp = y_ as int;
                let ghost ep = e3 as int;
                let ghost s: int = if x1 > x0 { 1int } else { -1 };
                self.set(p, color);
                proof {
                    lemma_plot_step(*old(self), prev, *self, plotted, p, color);
                    plotted = plotted.insert((xp, yp));
                }
                e3 = e3 + a3;
                if e3 > dy {
                    e3 = e3 - 2 * dy;
                    x_ = if dx > 0 { x_ + 1 } else { x_ - 1 };
                }
                y_ = y_ + 1;
                proof {
                    assert(walk_y(yp, y1 as int, xp, ep, a3 as int, dy as int, s)
                        == walk_y(y_ as int, y1 as int, x_ as int, e3 as int, a3 as int, dy as int, s)
                            .insert((xp, yp)));
                    assert(pixset =~= plotted.union(
                        walk_y(y_ as int, y1 as int, x_ as int, e3 as int, a3 as int, dy as int, s)));
                    if y_ > y1 {
                        assert(walk_y(y_ as int, y1 as int, x_ as int, e3 as int, a3 as int, dy as int, s)
                            =~= Set::<(int, int)>::empty());
                        assert(pixset =~= plotted);
                    }
                }
            }

            // Bottom to top input: walk top to bottom from p1.
            let mut x_: i32 = x1;
            let mut e3: i32 = 0;
            let mut y_: i32 = y1;
            proof {
                if y1 <= y0 {
                    assert(y1 < y0);
                    assert(pixset == walk_y(y1 as int, y0 as int, x1 as int, 0, a3 as int, (-dy) as int,
                        if x0 > x1 { 1int } else { -1 }));
                    assert(pixset =~= plotted.union(walk_y(y1 as int, y0 as int, x1 as int, 0,
                        a3 as int, (-dy) as int, if x0 > x1 { 1int } else { -1 })));
                }
            }
            while y_ <= y0
                invariant
                    old(self).wf(),
                    self.wf(),
                    self.same_dims(*old(self)),
                    y1 < y0 || y_ > y0,
                    dx == x1 - x0,
                    dy == y1 - y0,
                    adx == iabs(dx as int),
                    adx < -dy || y_ > y0,
                    a3 == 2 * adx,
                    -0x1000_0000 <= x0 <= 0x1000_0000,
                    -0x1000_0000 <= y0 <= 0x1000_0000,
                    -0x1000_0000 <= x1 <= 0x1000_0000,
                    -0x1000_0000 <= y1 <= 0x1000_0000,
                    y1 <= y_ <= y0 + 1 || y_ == y1,
                    x1 - (y_ - y1) <= x_ <= x1 + (y_ - y1),
                    dy < e3 <= -dy || e3 == 0,
                    y_ <= y0 ==> pixset == plotted.union(
                        walk_y(y_ as int, y0 as int, x_ as int, e3 as int, a3 as int, (-dy) as int,
                            if x0 > x1 { 1int } else { -1 })),
                    y_ > y0 ==> pixset == plotted,
                    forall|xx: int, yy: int| old(self).in_bounds(xx, yy) ==> self.pix(xx, yy) == (
                        if plotted.contains((xx, yy)) {
                            color
                        } else {
                            old(self).pix(xx, yy)
                        }),
                decreases y0 + 1 - y_,
            {
                let p = Point { x: x_, y: y_ };
                let ghost prev = *self;
                let ghost xp = x_ as int;
                let ghost yp = y_ as int;
                let ghost ep = e3 as int;
                let ghost s: int = if x0 > x1 { 1int } else { -1 };
                self.set(p, color);
                proof {
                    lemma_plot_step(*old(self), prev, *self, plotted, p, color);
                    plotted = plotted.insert((xp, yp));
                }
                e3 = e3 + a3;
                if e3 > -dy {
                    e3 = e3 + 2 * dy;
                    x_ = if dx > 0 { x_ - 1 } else { x_ + 1 };
                }
                y_ = y_ + 1;
                proof {
                    assert(walk_y(yp, y0 as int, xp, ep, a3 as int, (-dy) as int, s)
                        == walk_y(y_ as int, y0 as int, x_ as int, e3 as int, a3 as int, (-dy) as int, s)
                            .insert((xp, yp)));
                    assert(pixset =~= plotted.union(
                        walk_y(y_ as int, y0 as int, x_ as int, e3 as int, a3 as int, (-dy) as int, s)));
                    if y_ > y0 {
                        assert(walk_y(y_ as int, y0 as int, x_ as int, e3 as int, a3 as int, (-dy) as int, s)
                            =~= Set::<(int, int)>::empty());
                        assert(pixset =~= plotted);
                    }
                }
            }
            proof {
                assert(pixset == plotted);
            }
        }
    }
}

} // verus!
