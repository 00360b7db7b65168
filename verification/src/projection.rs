//! Structural wall detection on dark-pixel masks: gray threshold estimate,
//! row/column projections, projection peaks, and the extent of dark pixels
//! around a peak.
use vstd::prelude::*;
use crate::raster::{GrayGrid, GridView};
use crate::lines::PixelSeg;

verus! {

/// Peaks closer than this (in rows or columns) to the previous peak are dropped.
pub const PEAK_MERGE_DIST: u32 = 6;

/// First index `j >= i` whose value reaches `t` (or the length when none does).
pub open spec fn next_start(p: Seq<u32>, t: int, i: int) -> int
    decreases p.len() - i,
{
    if i < 0 || i >= p.len() || p[i] >= t {
        i
    } else {
        next_start(p, t, i + 1)
    }
}

/// First index `j >= i` whose value falls below `half` (or the length).
pub open spec fn run_stop(p: Seq<u32>, half: int, i: int) -> int
    decreases p.len() - i,
{
    if i < 0 || i >= p.len() || p[i] < half {
        i
    } else {
        run_stop(p, half, i + 1)
    }
}

/// Index of the first maximum of `p[s..e]`.
pub open spec fn first_argmax(p: Seq<u32>, s: int, e: int) -> int
    decreases e - s,
{
    if e <= s + 1 {
        s
    } else {
        let b = first_argmax(p, s, e - 1);
        if p[e - 1] > p[b] {
            e - 1
        } else {
            b
        }
    }
}

pub proof fn lemma_next_start(p: Seq<u32>, t: int, i: int)
    ensures
        0 <= i ==> i <= next_start(p, t, i) <= if i <= p.len() { p.len() as int } else { i },
        0 <= i && next_start(p, t, i) < p.len() ==> p[next_start(p, t, i)] >= t,
        forall|k: int| i <= k < next_start(p, t, i) ==> #[trigger] p[k] < t,
    decreases p.len() - i,
{
    if !(i < 0 || i >= p.len() || p[i] >= t) {
        lemma_next_start(p, t, i + 1);
    }
}

pub proof fn lemma_run_stop(p: Seq<u32>, half: int, i: int)
    ensures
        0 <= i ==> i <= run_stop(p, half, i) <= if i <= p.len() { p.len() as int } else { i },
        0 <= i < p.len() && p[i] >= half ==> run_stop(p, half, i) > i,
        forall|k: int| i <= k < run_stop(p, half, i) ==> #[trigger] p[k] >= half,
        0 <= i && run_stop(p, half, i) < p.len() ==> p[run_stop(p, half, i)] < half,
    decreases p.len() - i,
{
    if !(i < 0 || i >= p.len() || p[i] < half) {
        lemma_run_stop(p, half, i + 1);
    }
}

pub proof fn lemma_first_argmax(p: Seq<u32>, s: int, e: int)
    requires
        0 <= s < e <= p.len(),
    ensures
        s <= first_argmax(p, s, e) < e,
        forall|k: int| s <= k < e ==> #[trigger] p[k] <= p[first_argmax(p, s, e)],
    decreases e - s,
{
    if e > s + 1 {
        lemma_first_argmax(p, s, e - 1);
    }
}

/// Peaks of a projection profile, scanning from index `i`: each stretch that
/// starts at a value reaching `t` and continues while values stay at or above
/// `t / 2` yields the index of its first maximum, unless that index is within
/// [`PEAK_MERGE_DIST`] of the previously kept peak `last`.
pub open spec fn peaks_from(p: Seq<u32>, t: int, i: int, last: Option<int>) -> Seq<u32>
    decreases p.len() - i,
{
    let s = next_start(p, t, i);
    if i < 0 || s >= p.len() {
        Seq::empty()
    } else {
        proof {
            lemma_next_start(p, t, i);
            lemma_run_stop(p, t / 2, s);
        }
        let e = run_stop(p, t / 2, s);
        let b = first_argmax(p, s, e);
        if last matches Some(l) && (if b >= l { b - l } else { l - b }) <= PEAK_MERGE_DIST {
            peaks_from(p, t, e, last)
        } else {
            seq![b as u32] + peaks_from(p, t, e, Some(b))
        }
    }
}

/// Row (or column) indices where a projection profile peaks above `thresh`,
/// at most one per stretch and none within six of the previous peak.
pub fn find_projection_peaks(proj: &Vec<u32>, thresh: u32) -> (peaks: Vec<u32>)
    requires
        proj@.len() <= u32::MAX,
    ensures
        peaks@ == peaks_from(proj@, thresh as int, 0, None),
{
    let ghost p = proj@;
    let n = proj.len();
    let mut peaks: Vec<u32> = Vec::new();
    let mut last: Option<usize> = None;
    let mut i: usize = 0;
    while i < n
        invariant
            p == proj@,
            n == p.len(),
            n <= u32::MAX,
            i <= n,
            peaks@ + peaks_from(p, thresh as int, i as int, opt_int(last)) == peaks_from(p, thresh as int, 0, None),
            last matches Some(l) ==> l < n,
        decreases n - i,
    {
        if proj[i] < thresh {
            proof {
                assert(next_start(p, thresh as int, i as int) == next_start(p, thresh as int, i as int + 1));
            }
            i = i + 1;
        } else {
            let start = i;
            let mut best_i = i;
            let mut best_v = proj[i];
            proof {
                lemma_run_stop(p, thresh as int / 2, start as int);
                assert(next_start(p, thresh as int, i as int) == i);
            }
            while i < n && proj[i] >= thresh / 2
                invariant
                    p == proj@,
                    n == p.len(),
                    start <= i <= n,
                    start < n,
                    p[start as int] >= thresh,
                    start <= best_i < n,
                    best_v == p[best_i as int],
                    best_v >= thresh,
                    i == start ==> best_i == start,
                    i > start ==> best_i == first_argmax(p, start as int, i as int),
                    run_stop(p, thresh as int / 2, start as int) == run_stop(p, thresh as int / 2, i as int),
                decreases n - i,
            {
                if proj[i] > best_v {
                    best_v = proj[i];
                    best_i = i;
                }
                i = i + 1;
            }
            proof {
                lemma_run_stop(p, thresh as int / 2, i as int);
                assert(run_stop(p, thresh as int / 2, i as int) == i);
            }
            if best_v >= thresh {
                let near = match last {
                    Some(l) => (if best_i >= l {
                        best_i - l
                    } else {
                        l - best_i
                    }) <= PEAK_MERGE_DIST as usize,
                    None => false,
                };
                if !near {
                    peaks.push(best_i as u32);
                    last = Some(best_i);
                    proof {
                        assert(peaks@ + peaks_from(p, thresh as int, i as int, opt_int(last)) =~= peaks_from(
                            p,
                            thresh as int,
                            0,
                            None,
                        ));
                    }
                }
            }
        }
    }
    peaks
}

/// An optional index as an optional integer.
pub open spec fn opt_int(o: Option<usize>) -> Option<int> {
    match o {
        Some(v) => Some(v as int),
        None => None,
    }
}


/// A set pixel of `g` inside the rectangle `[xlo, xhi] × [ylo, yhi]`.
pub open spec fn rect_pixel(g: GridView, xlo: int, xhi: int, ylo: int, yhi: int, x: int, y: int) -> bool {
    xlo <= x <= xhi && ylo <= y <= yhi && g.inside(x, y) && g.at(x, y) > 0
}

/// The coordinate a span is measured along.
pub open spec fn coord(along_x: bool, x: int, y: int) -> int {
    if along_x {
        x
    } else {
        y
    }
}

/// `m` is the least coordinate of a set pixel in the rectangle.
pub open spec fn is_rect_min(g: GridView, xlo: int, xhi: int, ylo: int, yhi: int, along_x: bool, m: int) -> bool {
    &&& exists|x: int, y: int| #[trigger] rect_pixel(g, xlo, xhi, ylo, yhi, x, y) && coord(along_x, x, y) == m
    &&& forall|x: int, y: int| #[trigger] rect_pixel(g, xlo, xhi, ylo, yhi, x, y) ==> coord(along_x, x, y) >= m
}

/// `m` is the greatest coordinate of a set pixel in the rectangle.
pub open spec fn is_rect_max(g: GridView, xlo: int, xhi: int, ylo: int, yhi: int, along_x: bool, m: int) -> bool {
    &&& exists|x: int, y: int| #[trigger] rect_pixel(g, xlo, xhi, ylo, yhi, x, y) && coord(along_x, x, y) == m
    &&& forall|x: int, y: int| #[trigger] rect_pixel(g, xlo, xhi, ylo, yhi, x, y) ==> coord(along_x, x, y) <= m
}

/// The set pixels of the rectangle do not all share one coordinate.
pub open spec fn rect_spread(g: GridView, xlo: int, xhi: int, ylo: int, yhi: int, along_x: bool) -> bool {
    exists|x1: int, y1: int, x2: int, y2: int|
        #[trigger] rect_pixel(g, xlo, xhi, ylo, yhi, x1, y1) && #[trigger] rect_pixel(g, xlo, xhi, ylo, yhi, x2, y2)
            && coord(along_x, x1, y1) < coord(along_x, x2, y2)
}

/// Extent (least and greatest coordinate) of the set pixels of a rectangle
/// along one axis; `None` when they do not spread over more than one value.
pub open spec fn rect_span(g: GridView, xlo: int, xhi: int, ylo: int, yhi: int, along_x: bool) -> Option<(u32, u32)> {
    if rect_spread(g, xlo, xhi, ylo, yhi, along_x) {
        Some(
            (
                (choose|m: int| is_rect_min(g, xlo, xhi, ylo, yhi, along_x, m)) as u32,
                (choose|m: int| is_rect_max(g, xlo, xhi, ylo, yhi, along_x, m)) as u32,
            ),
        )
    } else {
        None
    }
}

fn rect_extent(g: &GrayGrid, xlo: u32, xhi: u32, ylo: u32, yhi: u32, along_x: bool) -> (r: Option<(u32, u32)>)
    requires
        g@.wf(),
        xhi < g@.width,
        yhi < g@.height,
    ensures
        r == rect_span(g@, xlo as int, xhi as int, ylo as int, yhi as int, along_x),
        r matches Some((a, b)) ==> a < b,
{
    let ghost gv = g@;
    let mut any = false;
    let mut lo: u32 = u32::MAX;
    let mut hi: u32 = 0;
    let mut y: u32 = ylo;
    while y <= yhi
        invariant
            gv == g@,
            gv.wf(),
            xhi < gv.width,
            yhi < gv.height,
            ylo <= y,
            y <= yhi + 1 || y == ylo,
            any <==> exists|px: int, py: int| #[trigger] rect_pixel(gv, xlo as int, xhi as int, ylo as int, yhi as int, px, py) && py < y,
            any ==> exists|px: int, py: int| #[trigger] rect_pixel(gv, xlo as int, xhi as int, ylo as int, yhi as int, px, py) && py < y && coord(along_x, px, py) == lo,
            any ==> exists|px: int, py: int| #[trigger] rect_pixel(gv, xlo as int, xhi as int, ylo as int, yhi as int, px, py) && py < y && coord(along_x, px, py) == hi,
            forall|px: int, py: int| #[trigger] rect_pixel(gv, xlo as int, xhi as int, ylo as int, yhi as int, px, py) && py < y ==> lo <= coord(along_x, px, py) <= hi,
        decreases yhi + 1 - y,
    {
        let mut x: u32 = xlo;
        while x <= xhi
            invariant
                gv == g@,
                gv.wf(),
                xhi < gv.width,
                yhi < gv.height,
                ylo <= y <= yhi,
                xlo <= x,
                x <= xhi + 1 || x == xlo,
                any <==> exists|px: int, py: int| #[trigger] rect_pixel(gv, xlo as int, xhi as int, ylo as int, yhi as int, px, py) && (py < y || (py == y && px < x)),
                any ==> exists|px: int, py: int| #[trigger] rect_pixel(gv, xlo as int, xhi as int, ylo as int, yhi as int, px, py) && (py < y || (py == y && px < x)) && coord(along_x, px, py) == lo,
                any ==> exists|px: int, py: int| #[trigger] rect_pixel(gv, xlo as int, xhi as int, ylo as int, yhi as int, px, py) && (py < y || (py == y && px < x)) && coord(along_x, px, py) == hi,
                forall|px: int, py: int| #[trigger] rect_pixel(gv, xlo as int, xhi as int, ylo as int, yhi as int, px, py) && (py < y || (py == y && px < x)) ==> lo <= coord(along_x, px, py) <= hi,
            decreases xhi + 1 - x,
        {
            if g.get(x, y) > 0 {
                let c = if along_x {
                    x
                } else {
                    y
                };
                assert(rect_pixel(gv, xlo as int, xhi as int, ylo as int, yhi as int, x as int, y as int));
                if !any {
                    lo = c;
                    hi = c;
                } else {
                    if c < lo {
                        lo = c;
                    }
                    if c > hi {
                        hi = c;
                    }
                }
                any = true;
            }
            x = x + 1;
        }
        y = y + 1;
    }
    let ghost xl = xlo as int;
    let ghost xh = xhi as int;
    let ghost yl = ylo as int;
    let ghost yh = yhi as int;
    proof {
        assert forall|px: int, py: int| #[trigger] rect_pixel(gv, xl, xh, yl, yh, px, py) implies py < y by {}
    }
    if any && hi > lo {
        proof {
            assert(is_rect_min(gv, xl, xh, yl, yh, along_x, lo as int));
            assert(is_rect_max(gv, xl, xh, yl, yh, along_x, hi as int));
            let (ax, ay) = choose|px: int, py: int| #[trigger] rect_pixel(gv, xl, xh, yl, yh, px, py) && py < y && coord(along_x, px, py) == lo;
            let (bx, by) = choose|px: int, py: int| #[trigger] rect_pixel(gv, xl, xh, yl, yh, px, py) && py < y && coord(along_x, px, py) == hi;
            assert(rect_pixel(gv, xl, xh, yl, yh, ax, ay) && rect_pixel(gv, xl, xh, yl, yh, bx, by));
            assert(rect_spread(gv, xl, xh, yl, yh, along_x));
            let m1 = choose|m: int| is_rect_min(gv, xl, xh, yl, yh, along_x, m);
            let m2 = choose|m: int| is_rect_max(gv, xl, xh, yl, yh, along_x, m);
            assert(is_rect_min(gv, xl, xh, yl, yh, along_x, m1));
            assert(is_rect_max(gv, xl, xh, yl, yh, along_x, m2));
            let (cx, cy) = choose|x: int, y: int| #[trigger] rect_pixel(gv, xl, xh, yl, yh, x, y) && coord(along_x, x, y) == m1;
            let (dx, dy) = choose|x: int, y: int| #[trigger] rect_pixel(gv, xl, xh, yl, yh, x, y) && coord(along_x, x, y) == m2;
            assert(m1 == lo as int);
            assert(m2 == hi as int);
        }
        Some((lo, hi))
    } else {
        proof {
            if rect_spread(gv, xl, xh, yl, yh, along_x) {
                let (x1, y1, x2, y2) = choose|x1: int, y1: int, x2: int, y2: int|
                    #[trigger] rect_pixel(gv, xl, xh, yl, yh, x1, y1) && #[trigger] rect_pixel(gv, xl, xh, yl, yh, x2, y2)
                        && coord(along_x, x1, y1) < coord(along_x, x2, y2);
                assert(rect_pixel(gv, xl, xh, yl, yh, x1, y1));
                assert(rect_pixel(gv, xl, xh, yl, yh, x2, y2));
            }
        }
        None
    }
}

/// First row of the band of half-height `band` around row `y`.
pub open spec fn band_lo(y: int, band: int) -> int {
    if y >= band {
        y - band
    } else {
        0
    }
}

/// Last row of the band, clipped to the image.
pub open spec fn band_hi(y: int, band: int, size: int) -> int {
    if y + band <= size - 1 {
        y + band
    } else {
        size - 1
    }
}

/// Horizontal extent of the set pixels within `band` rows of row `y`.
pub fn span_in_row_band(mask: &GrayGrid, y: u32, band: u32) -> (r: Option<(u32, u32)>)
    requires
        mask@.wf(),
        mask@.height >= 1,
        y + band <= u32::MAX,
    ensures
        r == rect_span(
            mask@,
            0,
            mask@.width - 1,
            band_lo(y as int, band as int),
            band_hi(y as int, band as int, mask@.height),
            true,
        ),
        r matches Some((a, b)) ==> a < b,
{
    let w = mask.width();
    let h = mask.height();
    let y0 = y.saturating_sub(band);
    let y1 = if y + band < h - 1 {
        y + band
    } else {
        h - 1
    };
    if w == 0 {
        proof {
            let gv = mask@;
            if rect_spread(gv, 0, -1, y0 as int, y1 as int, true) {
                let (x1, yy1, x2, yy2) = choose|x1: int, y1: int, x2: int, y2: int|
                    #[trigger] rect_pixel(gv, 0, -1, y0 as int, y1 as int, x1, y1) && #[trigger] rect_pixel(gv, 0, -1, y0 as int, y1 as int, x2, y2)
                        && coord(true, x1, y1) < coord(true, x2, y2);
            }
        }
        return None;
    }
    rect_extent(mask, 0, w - 1, y0, y1, true)
}

/// Vertical extent of the set pixels within `band` columns of column `x`;
/// `None` also for a column outside the image.
pub fn span_in_col_band(mask: &GrayGrid, x: u32, band: u32) -> (r: Option<(u32, u32)>)
    requires
        mask@.wf(),
        x < mask@.width ==> x + band <= u32::MAX,
    ensures
        x >= mask@.width ==> r is None,
        x < mask@.width ==> r == rect_span(
            mask@,
            band_lo(x as int, band as int),
            band_hi(x as int, band as int, mask@.width),
            0,
            mask@.height - 1,
            false,
        ),
        r matches Some((a, b)) ==> a < b,
{
    let w = mask.width();
    let h = mask.height();
    if x >= w {
        return None;
    }
    let x0 = x.saturating_sub(band);
    let x1 = if x + band < w - 1 {
        x + band
    } else {
        w - 1
    };
    if h == 0 {
        proof {
            let gv = mask@;
            if rect_spread(gv, x0 as int, x1 as int, 0, -1, false) {
                let (xa, ya, xb, yb) = choose|x1: int, y1: int, x2: int, y2: int|
                    #[trigger] rect_pixel(gv, x0 as int, x1 as int, 0, -1, x1, y1) && #[trigger] rect_pixel(gv, x0 as int, x1 as int, 0, -1, x2, y2)
                        && coord(false, x1, y1) < coord(false, x2, y2);
            }
        }
        return None;
    }
    rect_extent(mask, x0, x1, 0, h - 1, false)
}


/// Number of set pixels among the first `k` pixels of row `y`.
pub open spec fn count_row(g: GridView, y: int, k: int) -> int
    decreases k,
{
    if k <= 0 {
        0
    } else {
        count_row(g, y, k - 1) + if g.at(k - 1, y) > 0 { 1int } else { 0int }
    }
}

/// Number of set pixels among the first `k` pixels of column `x`.
pub open spec fn count_col(g: GridView, x: int, k: int) -> int
    decreases k,
{
    if k <= 0 {
        0
    } else {
        count_col(g, x, k - 1) + if g.at(x, k - 1) > 0 { 1int } else { 0int }
    }
}

proof fn lemma_count_row_bound(g: GridView, y: int, k: int)
    ensures
        0 <= count_row(g, y, k) <= if k >= 0 { k } else { 0 },
    decreases k,
{
    if k > 0 {
        lemma_count_row_bound(g, y, k - 1);
    }
}

proof fn lemma_count_col_bound(g: GridView, x: int, k: int)
    ensures
        0 <= count_col(g, x, k) <= if k >= 0 { k } else { 0 },
    decreases k,
{
    if k > 0 {
        lemma_count_col_bound(g, x, k - 1);
    }
}

/// Per-row counts of set pixels.
pub open spec fn row_profile(g: GridView) -> Seq<u32> {
    Seq::new(g.height as nat, |y: int| count_row(g, y, g.width) as u32)
}

/// Per-column counts of set pixels.
pub open spec fn col_profile(g: GridView) -> Seq<u32> {
    Seq::new(g.width as nat, |x: int| count_col(g, x, g.height) as u32)
}

/// Counts the set pixels of every row.
pub fn row_counts(mask: &GrayGrid) -> (proj: Vec<u32>)
    requires
        mask@.wf(),
    ensures
        proj@ == row_profile(mask@),
{
    let ghost g = mask@;
    let w = mask.width();
    let h = mask.height();
    let mut proj: Vec<u32> = Vec::new();
    let mut y: u32 = 0;
    while y < h
        invariant
            g == mask@,
            g.wf(),
            w == g.width,
            h == g.height,
            y <= h,
            proj@.len() == y,
            forall|k: int| 0 <= k < y ==> #[trigger] proj@[k] == count_row(g, k, w as int) as u32,
        decreases h - y,
    {
        let mut c: u32 = 0;
        let mut x: u32 = 0;
        while x < w
            invariant
                g == mask@,
                g.wf(),
                w == g.width,
                h == g.height,
                y < h,
                x <= w,
                c == count_row(g, y as int, x as int),
            decreases w - x,
        {
            proof {
                lemma_count_row_bound(g, y as int, x as int);
            }
            if mask.get(x, y) > 0 {
                c = c + 1;
            }
            x = x + 1;
        }
        proj.push(c);
        y = y + 1;
    }
    assert(proj@ =~= row_profile(g));
    proj
}

/// Counts the set pixels of every column.
pub fn col_counts(mask: &GrayGrid) -> (proj: Vec<u32>)
    requires
        mask@.wf(),
    ensures
        proj@ == col_profile(mask@),
{
    let ghost g = mask@;
    let w = mask.width();
    let h = mask.height();
    let mut proj: Vec<u32> = Vec::new();
    let mut x: u32 = 0;
    while x < w
        invariant
            g == mask@,
            g.wf(),
            w == g.width,
            h == g.height,
            x <= w,
            proj@.len() == x,
            forall|k: int| 0 <= k < x ==> #[trigger] proj@[k] == count_col(g, k, h as int) as u32,
        decreases w - x,
    {
        let mut c: u32 = 0;
        let mut y: u32 = 0;
        while y < h
            invariant
                g == mask@,
                g.wf(),
                w == g.width,
                h == g.height,
                x < w,
                y <= h,
                c == count_col(g, x as int, y as int),
            decreases h - y,
        {
            proof {
                lemma_count_col_bound(g, x as int, y as int);
            }
            if mask.get(x, y) > 0 {
                c = c + 1;
            }
            y = y + 1;
        }
        proj.push(c);
        x = x + 1;
    }
    assert(proj@ =~= col_profile(g));
    proj
}

/// The horizontal wall candidate at peak row `y`: the extent of the mask
/// within `band` rows of it, when at least `min_span` pixels long.
pub open spec fn row_candidate(g: GridView, y: int, min_span: int, band: int) -> Seq<PixelSeg> {
    match rect_span(g, 0, g.width - 1, band_lo(y, band), band_hi(y, band, g.height), true) {
        Some((a, b)) => if b - a >= min_span {
            seq![PixelSeg { x0: a, y0: y as u32, x1: b, y1: y as u32 }]
        } else {
            Seq::empty()
        },
        None => Seq::empty(),
    }
}

/// The vertical wall candidate at peak column `x`.
pub open spec fn col_candidate(g: GridView, x: int, min_span: int, band: int) -> Seq<PixelSeg> {
    match (if x < g.width {
        rect_span(g, band_lo(x, band), band_hi(x, band, g.width), 0, g.height - 1, false)
    } else {
        None
    }) {
        Some((a, b)) => if b - a >= min_span {
            seq![PixelSeg { x0: x as u32, y0: a, x1: x as u32, y1: b }]
        } else {
            Seq::empty()
        },
        None => Seq::empty(),
    }
}

/// Candidates of all peaks, in peak order.
pub open spec fn band_segs(g: GridView, peaks: Seq<u32>, min_span: int, band: int, rows: bool) -> Seq<PixelSeg>
    decreases peaks.len(),
{
    if peaks.len() == 0 {
        Seq::empty()
    } else {
        band_segs(g, peaks.drop_last(), min_span, band, rows) + if rows {
            row_candidate(g, peaks.last() as int, min_span, band)
        } else {
            col_candidate(g, peaks.last() as int, min_span, band)
        }
    }
}

fn push_candidate(mask: &GrayGrid, at: u32, min_span: u32, band: u32, rows: bool, segs: &mut Vec<PixelSeg>)
    requires
        mask@.wf(),
        rows ==> at < mask@.height,
        rows ==> mask@.height + band <= u32::MAX,
        !rows ==> mask@.width + band <= u32::MAX,
    ensures
        rows ==> final(segs)@ == old(segs)@ + row_candidate(mask@, at as int, min_span as int, band as int),
        !rows ==> final(segs)@ == old(segs)@ + col_candidate(mask@, at as int, min_span as int, band as int),
{
    if rows {
        if let Some((x0, x1)) = span_in_row_band(mask, at, band) {
            if x1 - x0 >= min_span {
                segs.push(PixelSeg { x0, y0: at, x1, y1: at });
            }
        }
        assert(segs@ =~= old(segs)@ + row_candidate(mask@, at as int, min_span as int, band as int));
    } else {
        if let Some((y0, y1)) = span_in_col_band(mask, at, band) {
            if y1 - y0 >= min_span {
                segs.push(PixelSeg { x0: at, y0, x1: at, y1 });
            }
        }
        assert(segs@ =~= old(segs)@ + col_candidate(mask@, at as int, min_span as int, band as int));
    }
}

fn band_candidates(mask: &GrayGrid, peaks: &Vec<u32>, min_span: u32, band: u32, rows: bool) -> (segs: Vec<PixelSeg>)
    requires
        mask@.wf(),
        rows ==> mask@.height + band <= u32::MAX,
        !rows ==> mask@.width + band <= u32::MAX,
        rows ==> forall|k: int| 0 <= k < peaks@.len() ==> #[trigger] peaks@[k] < mask@.height,
    ensures
        segs@ == band_segs(mask@, peaks@, min_span as int, band as int, rows),
{
    let mut segs: Vec<PixelSeg> = Vec::new();
    let mut i: usize = 0;
    while i < peaks.len()
        invariant
            mask@.wf(),
            rows ==> mask@.height + band <= u32::MAX,
            !rows ==> mask@.width + band <= u32::MAX,
            rows ==> forall|k: int| 0 <= k < peaks@.len() ==> #[trigger] peaks@[k] < mask@.height,
            i <= peaks@.len(),
            segs@ == band_segs(mask@, peaks@.take(i as int), min_span as int, band as int, rows),
        decreases peaks@.len() - i,
    {
        proof {
            assert(peaks@.take(i as int + 1).drop_last() =~= peaks@.take(i as int));
            assert(peaks@.take(i as int + 1).last() == peaks@[i as int]);
        }
        push_candidate(mask, peaks[i], min_span, band, rows, &mut segs);
        i = i + 1;
    }
    proof {
        assert(peaks@.take(peaks@.len() as int) =~= peaks@);
    }
    segs
}

/// Horizontal walls of a mask: peaks of the row profile above `thresh`, each
/// widened to the mask's extent within `band` rows, at least `min_span` long.
pub fn projection_horizontal(mask: &GrayGrid, min_span: u32, thresh: u32, band: u32) -> (segs: Vec<PixelSeg>)
    requires
        mask@.wf(),
        mask@.height + band <= u32::MAX,
    ensures
        segs@ == band_segs(mask@, peaks_from(row_profile(mask@), thresh as int, 0, None), min_span as int, band as int, true),
{
    let proj = row_counts(mask);
    let peaks = find_projection_peaks(&proj, thresh);
    proof {
        lemma_peaks_bound(row_profile(mask@), thresh as int, 0, None);
    }
    band_candidates(mask, &peaks, min_span, band, true)
}

/// Vertical walls of a mask: peaks of the column profile above `thresh`,
/// each widened to the mask's extent within `band` columns.
pub fn projection_vertical(mask: &GrayGrid, min_span: u32, thresh: u32, band: u32) -> (segs: Vec<PixelSeg>)
    requires
        mask@.wf(),
        mask@.width + band <= u32::MAX,
    ensures
        segs@ == band_segs(mask@, peaks_from(col_profile(mask@), thresh as int, 0, None), min_span as int, band as int, false),
{
    let proj = col_counts(mask);
    let peaks = find_projection_peaks(&proj, thresh);
    band_candidates(mask, &peaks, min_span, band, false)
}

/// Every peak is an index of the profile.
pub proof fn lemma_peaks_bound(p: Seq<u32>, t: int, i: int, last: Option<int>)
    requires
        p.len() <= u32::MAX,
    ensures
        forall|k: int| 0 <= k < peaks_from(p, t, i, last).len() ==> #[trigger] peaks_from(p, t, i, last)[k] < p.len(),
    decreases p.len() - i,
{
    let s = next_start(p, t, i);
    if !(i < 0 || s >= p.len()) {
        lemma_next_start(p, t, i);
        lemma_run_stop(p, t / 2, s);
        let e = run_stop(p, t / 2, s);
        let b = first_argmax(p, s, e);
        lemma_first_argmax(p, s, e);
        lemma_peaks_bound(p, t, e, last);
        lemma_peaks_bound(p, t, e, Some(b));
        let near = last matches Some(l) && (if b >= l { b - l } else { l - b }) <= PEAK_MERGE_DIST;
        if !near {
            let rest = peaks_from(p, t, e, Some(b));
            assert(peaks_from(p, t, i, last) == seq![b as u32] + rest);
            assert forall|k: int| 0 <= k < peaks_from(p, t, i, last).len() implies #[trigger] peaks_from(
                p,
                t,
                i,
                last,
            )[k] < p.len() by {
                if k > 0 {
                    assert(peaks_from(p, t, i, last)[k] == rest[k - 1]);
                }
            }
        } else {
            assert(peaks_from(p, t, i, last) == peaks_from(p, t, e, last));
        }
    }
}


/// Peaks found from index `i` lie at or after `i`, increase, and are spaced
/// more than [`PEAK_MERGE_DIST`] apart, also from the previously kept peak.
proof fn lemma_peaks_spaced_from(p: Seq<u32>, t: int, i: int, last: Option<int>)
    requires
        p.len() <= u32::MAX,
        t >= 0,
        0 <= i,
        last matches Some(l) ==> l < i,
    ensures
        forall|k: int| 0 <= k < peaks_from(p, t, i, last).len() ==> #[trigger] peaks_from(p, t, i, last)[k] >= i,
        forall|k: int|
            0 <= k < peaks_from(p, t, i, last).len() - 1 ==> #[trigger] peaks_from(p, t, i, last)[k]
                + PEAK_MERGE_DIST < peaks_from(p, t, i, last)[k + 1],
        last matches Some(l) ==> (peaks_from(p, t, i, last).len() > 0 ==> l + PEAK_MERGE_DIST < peaks_from(
            p,
            t,
            i,
            last,
        )[0]),
    decreases p.len() - i,
{
    let s = next_start(p, t, i);
    if s < p.len() {
        lemma_next_start(p, t, i);
        lemma_run_stop(p, t / 2, s);
        let e = run_stop(p, t / 2, s);
        let b = first_argmax(p, s, e);
        lemma_first_argmax(p, s, e);
        let near = last matches Some(l) && (if b >= l { b - l } else { l - b }) <= PEAK_MERGE_DIST;
        if near {
            lemma_peaks_spaced_from(p, t, e, last);
            assert(peaks_from(p, t, i, last) == peaks_from(p, t, e, last));
        } else {
            lemma_peaks_spaced_from(p, t, e, Some(b));
            let rest = peaks_from(p, t, e, Some(b));
            let q = peaks_from(p, t, i, last);
            assert(q == seq![b as u32] + rest);
            assert forall|k: int| 0 <= k < q.len() implies #[trigger] q[k] >= i by {
                if k > 0 {
                    assert(q[k] == rest[k - 1]);
                }
            }
            assert forall|k: int| 0 <= k < q.len() - 1 implies #[trigger] q[k] + PEAK_MERGE_DIST < q[k + 1] by {
                assert(q[k + 1] == rest[k]);
                if k > 0 {
                    assert(q[k] == rest[k - 1]);
                }
            }
        }
    }
}

/// The peaks of a profile are increasing row (or column) indices, each more
/// than [`PEAK_MERGE_DIST`] past the one before.
pub proof fn lemma_peaks_spaced(p: Seq<u32>, thresh: u32)
    requires
        p.len() <= u32::MAX,
    ensures
        forall|k: int|
            0 <= k < peaks_from(p, thresh as int, 0, None).len() - 1 ==> #[trigger] peaks_from(p, thresh as int, 0, None)[k]
                + PEAK_MERGE_DIST < peaks_from(p, thresh as int, 0, None)[k + 1],
        forall|k: int|
            0 <= k < peaks_from(p, thresh as int, 0, None).len() ==> #[trigger] peaks_from(p, thresh as int, 0, None)[k]
                < p.len(),
{
    lemma_peaks_spaced_from(p, thresh as int, 0, None);
    lemma_peaks_bound(p, thresh as int, 0, None);
}


/// Gray levels below this count as dark when estimating the wall threshold.
pub const DARK_LEVEL: u8 = 120;

/// Number of entries of `s` below `v`.
pub open spec fn count_lt(s: Seq<u8>, v: int) -> int
    decreases s.len(),
{
    if s.len() == 0 {
        0
    } else {
        count_lt(s.drop_last(), v) + if (s.last() as int) < v { 1int } else { 0int }
    }
}

/// Number of entries of `s` equal to `v`.
pub open spec fn count_eq(s: Seq<u8>, v: int) -> int
    decreases s.len(),
{
    if s.len() == 0 {
        0
    } else {
        count_eq(s.drop_last(), v) + if s.last() as int == v { 1int } else { 0int }
    }
}

proof fn lemma_count_step(s: Seq<u8>, v: int)
    ensures
        count_lt(s, v + 1) == count_lt(s, v) + count_eq(s, v),
        0 <= count_eq(s, v) <= s.len(),
        0 <= count_lt(s, v) <= s.len(),
    decreases s.len(),
{
    if s.len() > 0 {
        lemma_count_step(s.drop_last(), v);
    }
}

proof fn lemma_count_lt_mono(s: Seq<u8>, a: int, b: int)
    requires
        a <= b,
    ensures
        count_lt(s, a) <= count_lt(s, b),
    decreases s.len(),
{
    if s.len() > 0 {
        lemma_count_lt_mono(s.drop_last(), a, b);
    }
}

/// Rank (0-based) of the 90th-percentile dark pixel.
pub open spec fn dark_rank(s: Seq<u8>) -> int {
    count_lt(s, DARK_LEVEL as int) * 9 / 10
}

/// `v` is the dark gray level at rank [`dark_rank`] in ascending order: fewer
/// than or exactly that many dark pixels lie below `v`, and more lie at or
/// below it.
pub open spec fn is_dark_percentile(s: Seq<u8>, v: int) -> bool {
    0 <= v < DARK_LEVEL && count_lt(s, v) <= dark_rank(s) < count_lt(s, v + 1)
}

/// The gray level below which a pixel counts as wall: 15 above the 90th
/// percentile of the dark (below 120) pixels, at most 95; 85 when the image
/// has no dark pixel.
pub open spec fn wall_threshold_spec(s: Seq<u8>) -> u8 {
    if count_lt(s, DARK_LEVEL as int) == 0 {
        85
    } else {
        let v = choose|v: int| is_dark_percentile(s, v);
        if v + 15 <= 95 {
            (v + 15) as u8
        } else {
            95
        }
    }
}

/// Estimates the gray threshold separating walls from the rest of a plan.
pub fn estimate_wall_threshold(gray: &GrayGrid) -> (t: u8)
    requires
        gray@.wf(),
        9 * count_lt(gray@.data, DARK_LEVEL as int) <= usize::MAX,
    ensures
        t == wall_threshold_spec(gray@.data),
{
    let data = gray.as_raw();
    let ghost s = data@;
    let n = data.len();
    let mut hist: Vec<usize> = vec![0usize; 120];
    let mut dark: usize = 0;
    let mut i: usize = 0;
    while i < n
        invariant
            s == data@,
            n == s.len(),
            i <= n,
            hist@.len() == 120,
            dark == count_lt(s.take(i as int), DARK_LEVEL as int),
            forall|b: int| 0 <= b < 120 ==> #[trigger] hist@[b] == count_eq(s.take(i as int), b),
        decreases n - i,
    {
        proof {
            assert(s.take(i as int + 1).drop_last() =~= s.take(i as int));
            lemma_count_step(s.take(i as int + 1), data[i as int] as int);
            lemma_count_step(s.take(i as int + 1), DARK_LEVEL as int);
        }
        let v = data[i];
        if v < DARK_LEVEL {
            let c = hist[v as usize];
            hist.set(v as usize, c + 1);
            dark = dark + 1;
        }
        i = i + 1;
    }
    proof {
        assert(s.take(n as int) =~= s);
        lemma_count_step(s, DARK_LEVEL as int);
    }
    if dark == 0 {
        return 85;
    }
    let k = dark * 9 / 10;
    let mut v: usize = 0;
    let mut cum: usize = 0;
    proof {
        lemma_count_lt_mono(s, 0, 0);
        assert(count_lt(s, 0) == 0) by {
            lemma_count_lt_zero(s);
        }
        lemma_count_step(s, 0);
        lemma_count_step(s, 1);
    }
    while cum + hist[v] <= k
        invariant
            s == data@,
            hist@.len() == 120,
            forall|b: int| 0 <= b < 120 ==> #[trigger] hist@[b] == count_eq(s, b),
            dark == count_lt(s, DARK_LEVEL as int),
            dark > 0,
            k == dark * 9 / 10,
            k < dark,
            v < 120,
            cum == count_lt(s, v as int),
            cum <= k,
            cum + hist@[v as int] <= s.len(),
            s.len() == n,
        decreases 120 - v,
    {
        proof {
            lemma_count_step(s, v as int);
        }
        cum = cum + hist[v];
        v = v + 1;
        proof {
            if v == 120 {
                assert(false);
            }
            lemma_count_step(s, v as int);
            lemma_count_step(s, v as int + 1);
        }
    }
    proof {
        lemma_count_step(s, v as int);
        assert(is_dark_percentile(s, v as int));
        let c = choose|u: int| is_dark_percentile(s, u);
        lemma_dark_percentile_unique(s, c, v as int);
    }
    let p90 = v as u8;
    if p90 as u16 + 15 <= 95 {
        p90 + 15
    } else {
        95
    }
}

proof fn lemma_count_lt_zero(s: Seq<u8>)
    ensures
        count_lt(s, 0) == 0,
    decreases s.len(),
{
    if s.len() > 0 {
        lemma_count_lt_zero(s.drop_last());
    }
}

proof fn lemma_dark_percentile_unique(s: Seq<u8>, a: int, b: int)
    requires
        is_dark_percentile(s, a),
        is_dark_percentile(s, b),
    ensures
        a == b,
{
    if a < b {
        lemma_count_lt_mono(s, a + 1, b);
    } else if b < a {
        lemma_count_lt_mono(s, b + 1, a);
    }
}

} // verus!
