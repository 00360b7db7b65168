//! Drawing thick axis-aligned strokes, and the synthetic test floorplan.
use vstd::prelude::*;
use crate::raster::{GrayGrid, GridView};

verus! {

/// Row (or column) `v` lies within half a stroke thickness of the stroke's axis `c`.
pub open spec fn within_half(v: int, c: int, t: int) -> bool {
    (if c >= t / 2 { c - t / 2 } else { 0 }) <= v <= c + t / 2
}

/// `v` lies between the two ends of a stroke, inclusive.
pub open spec fn between(v: int, a: int, b: int) -> bool {
    (if a <= b { a } else { b }) <= v <= (if a <= b { b } else { a })
}

/// Pixel `(x, y)` is covered by a horizontal stroke from `x0` to `x1` at row
/// `yc`, `t` pixels thick.
pub open spec fn on_hline(x: int, y: int, x0: int, x1: int, yc: int, t: int) -> bool {
    between(x, x0, x1) && within_half(y, yc, t)
}

/// Pixel `(x, y)` is covered by a vertical stroke from `y0` to `y1` at column `xc`.
pub open spec fn on_vline(x: int, y: int, xc: int, y0: int, y1: int, t: int) -> bool {
    between(y, y0, y1) && within_half(x, xc, t)
}

/// Paints a horizontal stroke black, clipped to the image (which must have
/// a row, and a column when the stroke reaches its rows).
pub fn draw_hline(img: &mut GrayGrid, x0: u32, x1: u32, y: u32, t: u32)
    requires
        old(img)@.wf(),
        old(img)@.height >= 1,
        old(img)@.width >= 1 || (if y >= t / 2 { y - t / 2 } else { 0 }) >= old(img)@.height,
        y + t / 2 <= u32::MAX,
    ensures
        final(img)@.wf(),
        final(img)@.same_shape(old(img)@),
        forall|a: int, b: int|
            #![trigger final(img)@.at(a, b)]
            final(img)@.inside(a, b) ==> final(img)@.at(a, b) == if on_hline(a, b, x0 as int, x1 as int, y as int, t as int) {
                0u8
            } else {
                old(img)@.at(a, b)
            },
{
    let ghost g0 = img@;
    let w = img.width();
    let h = img.height();
    if w == 0 {
        return;
    }
    let lo = if x0 <= x1 {
        x0
    } else {
        x1
    };
    let hi = if x0 <= x1 {
        x1
    } else {
        x0
    };
    let ylo = y.saturating_sub(t / 2);
    let yhi = if y + t / 2 <= h - 1 {
        y + t / 2
    } else {
        h - 1
    };
    let xhi = if hi <= w - 1 {
        hi
    } else {
        w - 1
    };
    let mut yy = ylo;
    while yy <= yhi
        invariant
            lo == (if x0 <= x1 { x0 } else { x1 }),
            hi == (if x0 <= x1 { x1 } else { x0 }),
            ylo as int == (if y >= t / 2 { y - t / 2 } else { 0 }),
            yhi as int == (if y + t / 2 <= h - 1 { y + t / 2 } else { h - 1 }),
            xhi as int == (if hi <= w - 1 { hi as int } else { w - 1 }),
            img@.wf(),
            img@.same_shape(g0),
            w == g0.width,
            h == g0.height,
            yhi < h,
            xhi < w,
            ylo <= yy,
            yy <= yhi + 1 || yy == ylo,
            forall|a: int, b: int|
                #![trigger img@.at(a, b)]
                img@.inside(a, b) ==> img@.at(a, b) == if on_hline(a, b, x0 as int, x1 as int, y as int, t as int) && b
                    < yy {
                    0u8
                } else {
                    g0.at(a, b)
                },
        decreases yhi + 1 - yy,
    {
        let mut x = lo;
        while x <= xhi
            invariant
                lo == (if x0 <= x1 { x0 } else { x1 }),
                hi == (if x0 <= x1 { x1 } else { x0 }),
                ylo as int == (if y >= t / 2 { y - t / 2 } else { 0 }),
                yhi as int == (if y + t / 2 <= h - 1 { y + t / 2 } else { h - 1 }),
                xhi as int == (if hi <= w - 1 { hi as int } else { w - 1 }),
                img@.wf(),
                img@.same_shape(g0),
                w == g0.width,
                h == g0.height,
                ylo <= yy <= yhi,
                yhi < h,
                xhi < w,
                lo <= x,
                x <= xhi + 1 || x == lo,
                forall|a: int, b: int|
                    #![trigger img@.at(a, b)]
                    img@.inside(a, b) ==> img@.at(a, b) == if on_hline(a, b, x0 as int, x1 as int, y as int, t as int)
                        && (b < yy || (b == yy && a < x)) {
                        0u8
                    } else {
                        g0.at(a, b)
                    },
            decreases xhi + 1 - x,
        {
            img.put(x, yy, 0);
            x = x + 1;
        }
        yy = yy + 1;
    }
}

/// Paints a vertical stroke black, clipped to the image (which must have a
/// column, and a row when the stroke reaches its columns).
pub fn draw_vline(img: &mut GrayGrid, x: u32, y0: u32, y1: u32, t: u32)
    requires
        old(img)@.wf(),
        old(img)@.width >= 1,
        old(img)@.height >= 1 || (if x >= t / 2 { x - t / 2 } else { 0 }) >= old(img)@.width,
        x + t / 2 <= u32::MAX,
    ensures
        final(img)@.wf(),
        final(img)@.same_shape(old(img)@),
        forall|a: int, b: int|
            #![trigger final(img)@.at(a, b)]
            final(img)@.inside(a, b) ==> final(img)@.at(a, b) == if on_vline(a, b, x as int, y0 as int, y1 as int, t as int) {
                0u8
            } else {
                old(img)@.at(a, b)
            },
{
    let ghost g0 = img@;
    let w = img.width();
    let h = img.height();
    if h == 0 {
        return;
    }
    let lo = if y0 <= y1 {
        y0
    } else {
        y1
    };
    let hi = if y0 <= y1 {
        y1
    } else {
        y0
    };
    let xlo = x.saturating_sub(t / 2);
    let xhi = if x + t / 2 <= w - 1 {
        x + t / 2
    } else {
        w - 1
    };
    let yhi = if hi <= h - 1 {
        hi
    } else {
        h - 1
    };
    let mut xx = xlo;
    while xx <= xhi
        invariant
            lo == (if y0 <= y1 { y0 } else { y1 }),
            hi == (if y0 <= y1 { y1 } else { y0 }),
            xlo as int == (if x >= t / 2 { x - t / 2 } else { 0 }),
            xhi as int == (if x + t / 2 <= w - 1 { x + t / 2 } else { w - 1 }),
            yhi as int == (if hi <= h - 1 { hi as int } else { h - 1 }),
            img@.wf(),
            img@.same_shape(g0),
            w == g0.width,
            h == g0.height,
            xhi < w,
            yhi < h,
            xlo <= xx,
            xx <= xhi + 1 || xx == xlo,
            forall|a: int, b: int|
                #![trigger img@.at(a, b)]
                img@.inside(a, b) ==> img@.at(a, b) == if on_vline(a, b, x as int, y0 as int, y1 as int, t as int) && a
                    < xx {
                    0u8
                } else {
                    g0.at(a, b)
                },
        decreases xhi + 1 - xx,
    {
        let mut yy = lo;
        while yy <= yhi
            invariant
                lo == (if y0 <= y1 { y0 } else { y1 }),
                hi == (if y0 <= y1 { y1 } else { y0 }),
                xlo as int == (if x >= t / 2 { x - t / 2 } else { 0 }),
                xhi as int == (if x + t / 2 <= w - 1 { x + t / 2 } else { w - 1 }),
                yhi as int == (if hi <= h - 1 { hi as int } else { h - 1 }),
                img@.wf(),
                img@.same_shape(g0),
                w == g0.width,
                h == g0.height,
                xlo <= xx <= xhi,
                xhi < w,
                yhi < h,
                lo <= yy,
                yy <= yhi + 1 || yy == lo,
                forall|a: int, b: int|
                    #![trigger img@.at(a, b)]
                    img@.inside(a, b) ==> img@.at(a, b) == if on_vline(a, b, x as int, y0 as int, y1 as int, t as int)
                        && (a < xx || (a == xx && b < yy)) {
                        0u8
                    } else {
                        g0.at(a, b)
                    },
            decreases yhi + 1 - yy,
        {
            img.put(xx, yy, 0);
            yy = yy + 1;
        }
        xx = xx + 1;
    }
}

/// Paints the border of the rectangle `[x0, x1] × [y0, y1]` black.
pub fn draw_rect_border(img: &mut GrayGrid, x0: u32, y0: u32, x1: u32, y1: u32, t: u32)
    requires
        old(img)@.wf(),
        old(img)@.width >= 1,
        old(img)@.height >= 1,
        y0 + t / 2 <= u32::MAX,
        y1 + t / 2 <= u32::MAX,
        x0 + t / 2 <= u32::MAX,
        x1 + t / 2 <= u32::MAX,
    ensures
        final(img)@.wf(),
        final(img)@.same_shape(old(img)@),
        forall|a: int, b: int|
            #![trigger final(img)@.at(a, b)]
            final(img)@.inside(a, b) ==> final(img)@.at(a, b) == if on_rect_border(
                a,
                b,
                x0 as int,
                y0 as int,
                x1 as int,
                y1 as int,
                t as int,
            ) {
                0u8
            } else {
                old(img)@.at(a, b)
            },
{
    draw_hline(img, x0, x1, y0, t);
    draw_hline(img, x0, x1, y1, t);
    draw_vline(img, x0, y0, y1, t);
    draw_vline(img, x1, y0, y1, t);
}

/// Pixel covered by the border strokes of a rectangle.
pub open spec fn on_rect_border(x: int, y: int, x0: int, y0: int, x1: int, y1: int, t: int) -> bool {
    on_hline(x, y, x0, x1, y0, t) || on_hline(x, y, x0, x1, y1, t) || on_vline(x, y, x0, y0, y1, t) || on_vline(
        x,
        y,
        x1,
        y0,
        y1,
        t,
    )
}

/// The walls of the synthetic plan: a border 40 pixels in from the edges and
/// two inner walls meeting at the center, all 4 pixels thick.
pub open spec fn synthetic_wall(w: int, h: int, x: int, y: int) -> bool {
    on_rect_border(x, y, 40, 40, w - 40, h - 40, 4) || on_hline(x, y, 40, w / 2, h / 2, 4) || on_vline(
        x,
        y,
        w / 2,
        40,
        h / 2,
        4,
    )
}

/// A white `width × height` plan with black walls (see [`synthetic_wall`]).
pub fn synthetic_floorplan(width: u32, height: u32) -> (img: GrayGrid)
    requires
        width >= 40,
        height >= 40,
        width as int * height as int <= usize::MAX,
    ensures
        img@.wf(),
        img@.width == width,
        img@.height == height,
        forall|x: int, y: int|
            #![trigger img@.at(x, y)]
            img@.inside(x, y) ==> img@.at(x, y) == if synthetic_wall(width as int, height as int, x, y) {
                0u8
            } else {
                255u8
            },
{
    let mut img = GrayGrid::filled(width, height, 255);
    draw_rect_border(&mut img, 40, 40, width - 40, height - 40, 4);
    draw_hline(&mut img, 40, width / 2, height / 2, 4);
    draw_vline(&mut img, width / 2, 40, height / 2, 4);
    img
}

} // verus!
