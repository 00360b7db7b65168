//! Single-channel pixel grids and the morphology used by wall detection.
use vstd::prelude::*;
use vstd::arithmetic::div_mod::lemma_fundamental_div_mod_converse;
use crate::glb::push_bytes;

verus! {

/// Mathematical content of a grid: row-major pixels, `width` per row.
#[verifier::ext_equal]
pub struct GridView {
    pub width: int,
    pub height: int,
    pub data: Seq<u8>,
}

impl GridView {
    /// Pixel at column `x`, row `y`.
    pub open spec fn at(self, x: int, y: int) -> u8 {
        self.data[y * self.width + x]
    }

    /// Whether `(x, y)` lies on the grid.
    pub open spec fn inside(self, x: int, y: int) -> bool {
        0 <= x < self.width && 0 <= y < self.height
    }

    /// Dimensions are non-negative and the data holds exactly one byte per pixel.
    pub open spec fn wf(self) -> bool {
        &&& 0 <= self.width <= u32::MAX
        &&& 0 <= self.height <= u32::MAX
        &&& self.data.len() == self.width * self.height
    }

    /// Same dimensions as `other`.
    pub open spec fn same_shape(self, other: GridView) -> bool {
        self.width == other.width && self.height == other.height
    }
}

/// The grid of the given shape whose pixel at `(x, y)` is `f(x, y)`.
pub open spec fn grid_from_fn(width: int, height: int, f: spec_fn(int, int) -> u8) -> GridView {
    GridView {
        width,
        height,
        data: Seq::new((width * height) as nat, |i: int| f(i % width, i / width)),
    }
}

/// A grayscale image: `width * height` bytes, row-major.
pub struct GrayGrid {
    width: u32,
    height: u32,
    pixels: Vec<u8>,
}

impl View for GrayGrid {
    type V = GridView;

    closed spec fn view(&self) -> GridView {
        GridView { width: self.width as int, height: self.height as int, data: self.pixels@ }
    }
}

/// Row-major index of `(x, y)` and its inverse.
pub proof fn lemma_index(w: int, h: int, x: int, y: int)
    requires
        0 <= x < w,
        0 <= y < h,
    ensures
        0 <= y * w + x < w * h,
        (y * w + x) % w == x,
        (y * w + x) / w == y,
{
    assert(0 <= y * w) by (nonlinear_arith)
        requires
            0 <= y,
            0 <= w,
    ;
    assert(y * w + x < w * h) by (nonlinear_arith)
        requires
            0 <= x < w,
            0 <= y < h,
    ;
    lemma_fundamental_div_mod_converse(y * w + x, w, y, x);
}

/// Coordinates of a row-major index.
pub proof fn lemma_index_inv(w: int, h: int, i: int)
    requires
        0 < w,
        0 <= i < w * h,
    ensures
        0 <= i % w < w,
        0 <= i / w < h,
        (i / w) * w + i % w == i,
{
    assert(0 <= i % w < w && (i / w) * w + i % w == i && 0 <= i / w) by (nonlinear_arith)
        requires
            0 < w,
            0 <= i,
    ;
    assert(i / w < h) by (nonlinear_arith)
        requires
            0 < w,
            i < w * h,
            (i / w) * w + i % w == i,
            0 <= i % w,
    ;
}

/// Two well-formed grids of the same shape that agree on every pixel are equal.
pub proof fn lemma_grid_ext(a: GridView, b: GridView)
    requires
        a.wf(),
        b.wf(),
        a.same_shape(b),
        forall|x: int, y: int| a.inside(x, y) ==> #[trigger] a.at(x, y) == b.at(x, y),
    ensures
        a =~= b,
{
    assert forall|i: int| 0 <= i < a.data.len() implies a.data[i] == b.data[i] by {
        if a.width == 0 {
            assert(a.width * a.height == 0) by (nonlinear_arith)
                requires
                    a.width == 0,
            ;
        }
        lemma_index_inv(a.width, a.height, i);
        assert(a.at(i % a.width, i / a.width) == b.at(i % a.width, i / a.width));
    }
}

/// Pixel `(x, y)` of [`grid_from_fn`] is `f(x, y)`.
pub proof fn lemma_grid_from_fn_at(width: int, height: int, f: spec_fn(int, int) -> u8, x: int, y: int)
    requires
        0 <= x < width,
        0 <= y < height,
    ensures
        grid_from_fn(width, height, f).at(x, y) == f(x, y),
        grid_from_fn(width, height, f).data.len() == width * height,
{
    lemma_index(width, height, x, y);
}

impl GrayGrid {
    /// A `width × height` grid filled with `value`.
    pub fn filled(width: u32, height: u32, value: u8) -> (r: GrayGrid)
        requires
            width as int * height as int <= usize::MAX,
        ensures
            r@.wf(),
            r@.width == width,
            r@.height == height,
            forall|x: int, y: int| r@.inside(x, y) ==> #[trigger] r@.at(x, y) == value,
    {
        let n = width as usize * height as usize;
        let pixels = vec![value; n];
        let r = GrayGrid { width, height, pixels };
        proof {
            assert forall|x: int, y: int| r@.inside(x, y) implies #[trigger] r@.at(x, y) == value by {
                lemma_index(width as int, height as int, x, y);
            }
        }
        r
    }

    /// A black `width × height` grid.
    pub fn new(width: u32, height: u32) -> (r: GrayGrid)
        requires
            width as int * height as int <= usize::MAX,
        ensures
            r@.wf(),
            r@.width == width,
            r@.height == height,
            forall|x: int, y: int| r@.inside(x, y) ==> #[trigger] r@.at(x, y) == 0,
    {
        GrayGrid::filled(width, height, 0)
    }

    /// A grid over existing row-major pixels; `None` when the length does not match.
    pub fn from_raw(width: u32, height: u32, pixels: Vec<u8>) -> (r: Option<GrayGrid>)
        ensures
            (r is Some) <==> pixels@.len() == width as int * height as int,
            r matches Some(g) ==> g@ == (GridView { width: width as int, height: height as int, data: pixels@ })
                && g@.wf(),
    {
        proof {
            assert(width as int * height as int <= u64::MAX) by (nonlinear_arith)
                requires
                    width <= u32::MAX,
                    height <= u32::MAX,
            ;
        }
        if pixels.len() as u64 == width as u64 * height as u64 {
            Some(GrayGrid { width, height, pixels })
        } else {
            None
        }
    }

    pub fn width(&self) -> (r: u32)
        ensures
            r == self@.width,
    {
        self.width
    }

    pub fn height(&self) -> (r: u32)
        ensures
            r == self@.height,
    {
        self.height
    }

    /// The row-major pixels.
    pub fn as_raw(&self) -> (r: &Vec<u8>)
        ensures
            r@ == self@.data,
    {
        &self.pixels
    }

    /// Pixel at `(x, y)`.
    pub fn get(&self, x: u32, y: u32) -> (r: u8)
        requires
            self@.wf(),
            self@.inside(x as int, y as int),
        ensures
            r == self@.at(x as int, y as int),
    {
        proof {
            lemma_index(self.width as int, self.height as int, x as int, y as int);
        }
        let n = self.pixels.len();
        assert((y as int) * (self.width as int) + (x as int) < (n as int));
        self.pixels[y as usize * self.width as usize + x as usize]
    }

    /// Sets pixel `(x, y)` to `v`, leaving every other pixel alone.
    pub fn put(&mut self, x: u32, y: u32, v: u8)
        requires
            old(self)@.wf(),
            old(self)@.inside(x as int, y as int),
        ensures
            final(self)@.same_shape(old(self)@),
            final(self)@.wf(),
            final(self)@.at(x as int, y as int) == v,
            forall|a: int, b: int|
                #![trigger final(self)@.at(a, b)]
                final(self)@.inside(a, b) && (a != x || b != y) ==> final(self)@.at(a, b) == old(self)@.at(a, b),
            final(self)@.data == old(self)@.data.update(y * old(self)@.width + x, v),
    {
        proof {
            lemma_index(self.width as int, self.height as int, x as int, y as int);
        }
        let n = self.pixels.len();
        assert((y as int) * (self.width as int) + (x as int) < (n as int));
        let i = y as usize * self.width as usize + x as usize;
        self.pixels.set(i, v);
        proof {
            assert forall|a: int, b: int|
                #![trigger self@.at(a, b)]
                self@.inside(a, b) && (a != x || b != y) implies self@.at(a, b) == old(self)@.at(a, b) by {
                lemma_index(self.width as int, self.height as int, a as int, b as int);
                if b * self.width + a == y * self.width + x {
                    lemma_index(self.width as int, self.height as int, x as int, y as int);
                }
            }
        }
    }

    /// An independent copy.
    pub fn copy(&self) -> (r: GrayGrid)
        ensures
            r@ == self@,
    {
        let mut pixels: Vec<u8> = Vec::new();
        push_bytes(&mut pixels, &self.pixels);
        assert(pixels@ =~= self.pixels@);
        GrayGrid { width: self.width, height: self.height, pixels }
    }
}


/// `(nx, ny)` is on the grid and within `r` of `(x, y)` in both axes.
pub open spec fn in_window(g: GridView, x: int, y: int, r: int, nx: int, ny: int) -> bool {
    x - r <= nx <= x + r && y - r <= ny <= y + r && g.inside(nx, ny)
}

/// The value an empty window yields: 0 for a maximum, 255 for a minimum.
pub open spec fn extreme_init(maximize: bool) -> u8 {
    if maximize {
        0
    } else {
        255
    }
}

/// `v` does not exceed `m` (for a maximum) or is not below it (for a minimum).
pub open spec fn bounded_by(maximize: bool, v: u8, m: u8) -> bool {
    if maximize {
        v <= m
    } else {
        v >= m
    }
}

/// `m` is the maximum (or minimum) of the window of radius `r` around `(x, y)`,
/// or the empty-window value when no pixel is in the window.
pub open spec fn is_window_extreme(g: GridView, x: int, y: int, r: int, maximize: bool, m: u8) -> bool {
    &&& forall|nx: int, ny: int| in_window(g, x, y, r, nx, ny) ==> bounded_by(maximize, #[trigger] g.at(nx, ny), m)
    &&& (m == extreme_init(maximize) || exists|nx: int, ny: int|
        in_window(g, x, y, r, nx, ny) && #[trigger] g.at(nx, ny) == m)
}

/// Largest pixel within radius `r` of `(x, y)`.
pub open spec fn window_max(g: GridView, x: int, y: int, r: int) -> u8 {
    choose|m: u8| is_window_extreme(g, x, y, r, true, m)
}

/// Smallest pixel within radius `r` of `(x, y)`.
pub open spec fn window_min(g: GridView, x: int, y: int, r: int) -> u8 {
    choose|m: u8| is_window_extreme(g, x, y, r, false, m)
}

/// Grayscale dilation: each pixel becomes the maximum of its `(2r+1)²` window
/// (clipped to the grid).
pub open spec fn dilate_spec(g: GridView, r: int) -> GridView {
    grid_from_fn(g.width, g.height, |x: int, y: int| window_max(g, x, y, r))
}

/// Grayscale erosion: each pixel becomes the minimum of its window.
pub open spec fn erode_spec(g: GridView, r: int) -> GridView {
    grid_from_fn(g.width, g.height, |x: int, y: int| window_min(g, x, y, r))
}

proof fn lemma_window_extreme_unique(g: GridView, x: int, y: int, r: int, maximize: bool, m: u8)
    requires
        is_window_extreme(g, x, y, r, maximize, m),
    ensures
        maximize ==> window_max(g, x, y, r) == m,
        !maximize ==> window_min(g, x, y, r) == m,
{
    let c = if maximize {
        window_max(g, x, y, r)
    } else {
        window_min(g, x, y, r)
    };
    assert(is_window_extreme(g, x, y, r, maximize, c));
    if c != m {
        if c != extreme_init(maximize) {
            let (ax, ay) = choose|nx: int, ny: int| in_window(g, x, y, r, nx, ny) && #[trigger] g.at(nx, ny) == c;
            assert(bounded_by(maximize, g.at(ax, ay), m));
        }
        if m != extreme_init(maximize) {
            let (bx, by) = choose|nx: int, ny: int| in_window(g, x, y, r, nx, ny) && #[trigger] g.at(nx, ny) == m;
            assert(bounded_by(maximize, g.at(bx, by), c));
        }
    }
}

/// A window whose pixels are all at most `v` has a maximum.
proof fn lemma_window_max_below(g: GridView, x: int, y: int, r: int, v: int)
    requires
        0 <= v <= 255,
        forall|nx: int, ny: int| in_window(g, x, y, r, nx, ny) ==> #[trigger] g.at(nx, ny) <= v,
    ensures
        exists|m: u8| is_window_extreme(g, x, y, r, true, m),
    decreases v,
{
    if exists|nx: int, ny: int| in_window(g, x, y, r, nx, ny) && #[trigger] g.at(nx, ny) == v {
        assert(is_window_extreme(g, x, y, r, true, v as u8));
    } else if v == 0 {
        assert(is_window_extreme(g, x, y, r, true, 0u8));
    } else {
        assert forall|nx: int, ny: int| in_window(g, x, y, r, nx, ny) implies #[trigger] g.at(nx, ny) <= v - 1 by {
            assert(g.at(nx, ny) <= v);
        }
        lemma_window_max_below(g, x, y, r, v - 1);
    }
}

/// A window whose pixels are all at least `v` has a minimum.
proof fn lemma_window_min_above(g: GridView, x: int, y: int, r: int, v: int)
    requires
        0 <= v <= 255,
        forall|nx: int, ny: int| in_window(g, x, y, r, nx, ny) ==> #[trigger] g.at(nx, ny) >= v,
    ensures
        exists|m: u8| is_window_extreme(g, x, y, r, false, m),
    decreases 255 - v,
{
    if exists|nx: int, ny: int| in_window(g, x, y, r, nx, ny) && #[trigger] g.at(nx, ny) == v {
        assert(is_window_extreme(g, x, y, r, false, v as u8));
    } else if v == 255 {
        assert(is_window_extreme(g, x, y, r, false, 255u8));
    } else {
        assert forall|nx: int, ny: int| in_window(g, x, y, r, nx, ny) implies #[trigger] g.at(nx, ny) >= v + 1 by {
            assert(g.at(nx, ny) >= v);
        }
        lemma_window_min_above(g, x, y, r, v + 1);
    }
}

/// The window maximum and minimum are what they claim to be.
proof fn lemma_window_extremes(g: GridView, x: int, y: int, r: int)
    ensures
        is_window_extreme(g, x, y, r, true, window_max(g, x, y, r)),
        is_window_extreme(g, x, y, r, false, window_min(g, x, y, r)),
{
    lemma_window_max_below(g, x, y, r, 255);
    lemma_window_min_above(g, x, y, r, 0);
}

/// Closing (dilation then erosion with the same radius) never darkens a
/// pixel: every pixel of the closed image is at least the original pixel,
/// so a closed mask contains every set pixel of the mask it closes.
pub proof fn lemma_closing_extensive(g: GridView, r: int, x: int, y: int)
    requires
        g.inside(x, y),
    ensures
        erode_spec(dilate_spec(g, r), r).at(x, y) >= g.at(x, y),
{
    let d = dilate_spec(g, r);
    lemma_grid_from_fn_at(d.width, d.height, |a: int, b: int| window_min(d, a, b, r), x, y);
    lemma_window_extremes(d, x, y, r);
    let em = window_min(d, x, y, r);
    if em != 255u8 {
        let (px, py) = choose|nx: int, ny: int| in_window(d, x, y, r, nx, ny) && #[trigger] d.at(nx, ny) == em;
        lemma_grid_from_fn_at(g.width, g.height, |a: int, b: int| window_max(g, a, b, r), px, py);
        lemma_window_extremes(g, px, py, r);
        assert(in_window(g, px, py, r, x, y));
        assert(bounded_by(true, g.at(x, y), window_max(g, px, py, r)));
    }
}

/// Maximum (or minimum) of the window of radius `r` around `(x, y)`.
fn window_extreme(g: &GrayGrid, x: u32, y: u32, r: i32, maximize: bool) -> (m: u8)
    requires
        g@.wf(),
        g@.inside(x as int, y as int),
    ensures
        is_window_extreme(g@, x as int, y as int, r as int, maximize, m),
{
    let ghost gv = g@;
    let w = g.width();
    let h = g.height();
    let ri = r as i64;
    let mut acc: u8 = if maximize {
        0
    } else {
        255
    };
    let mut dy: i64 = -ri;
    while dy <= ri
        invariant
            gv == g@,
            gv.wf(),
            w == gv.width,
            h == gv.height,
            ri == r,
            -ri <= dy,
            dy <= ri + 1 || dy == -ri,
            forall|nx: int, ny: int|
                in_window(gv, x as int, y as int, r as int, nx, ny) && ny < y + dy ==> bounded_by(
                    maximize,
                    #[trigger] gv.at(nx, ny),
                    acc,
                ),
            acc == extreme_init(maximize) || exists|nx: int, ny: int|
                in_window(gv, x as int, y as int, r as int, nx, ny) && ny < y + dy && #[trigger] gv.at(nx, ny)
                    == acc,
        decreases ri + 1 - dy,
    {
        let mut dx: i64 = -ri;
        while dx <= ri
            invariant
                gv == g@,
                gv.wf(),
                w == gv.width,
                h == gv.height,
                ri == r,
                -ri <= dy <= ri,
                -ri <= dx <= ri + 1,
                forall|nx: int, ny: int|
                    in_window(gv, x as int, y as int, r as int, nx, ny) && (ny < y + dy || (ny == y + dy && nx < x
                        + dx)) ==> bounded_by(maximize, #[trigger] gv.at(nx, ny), acc),
                acc == extreme_init(maximize) || exists|nx: int, ny: int|
                    in_window(gv, x as int, y as int, r as int, nx, ny) && (ny < y + dy || (ny == y + dy && nx < x
                        + dx)) && #[trigger] gv.at(nx, ny) == acc,
            decreases ri + 1 - dx,
        {
            let nx = x as i64 + dx;
            let ny = y as i64 + dy;
            if nx >= 0 && ny >= 0 && nx < w as i64 && ny < h as i64 {
                let v = g.get(nx as u32, ny as u32);
                if maximize {
                    if v > acc {
                        acc = v;
                    }
                } else {
                    if v < acc {
                        acc = v;
                    }
                }
                assert(gv.at(nx as int, ny as int) == v);
            }
            dx = dx + 1;
        }
        dy = dy + 1;
    }
    acc
}

/// The pixel-wise dilation (or erosion) of `g` as a new grid.
fn morph(g: &GrayGrid, r: i32, maximize: bool) -> (out: GrayGrid)
    requires
        g@.wf(),
    ensures
        out@.wf(),
        out@.same_shape(g@),
        maximize ==> out@ == dilate_spec(g@, r as int),
        !maximize ==> out@ == erode_spec(g@, r as int),
{
    let ghost gv = g@;
    let w = g.width();
    let h = g.height();
    let mut out = g.copy();
    let mut y: u32 = 0;
    while y < h
        invariant
            gv == g@,
            gv.wf(),
            out@.wf(),
            out@.same_shape(gv),
            w == gv.width,
            h == gv.height,
            y <= h,
            forall|a: int, b: int|
                out@.inside(a, b) && b < y ==> is_window_extreme(gv, a, b, r as int, maximize, #[trigger] out@.at(a, b)),
        decreases h - y,
    {
        let mut x: u32 = 0;
        while x < w
            invariant
                gv == g@,
                gv.wf(),
                out@.wf(),
                out@.same_shape(gv),
                w == gv.width,
                h == gv.height,
                y < h,
                x <= w,
                forall|a: int, b: int|
                    out@.inside(a, b) && (b < y || (b == y && a < x)) ==> is_window_extreme(
                        gv,
                        a,
                        b,
                        r as int,
                        maximize,
                        #[trigger] out@.at(a, b),
                    ),
            decreases w - x,
        {
            let m = window_extreme(g, x, y, r, maximize);
            out.put(x, y, m);
            x = x + 1;
        }
        y = y + 1;
    }
    proof {
        let target = if maximize {
            dilate_spec(gv, r as int)
        } else {
            erode_spec(gv, r as int)
        };
        assert forall|a: int, b: int| out@.inside(a, b) implies #[trigger] out@.at(a, b) == target.at(a, b) by {
            lemma_window_extreme_unique(gv, a, b, r as int, maximize, out@.at(a, b));
            if maximize {
                lemma_grid_from_fn_at(gv.width, gv.height, |x: int, y: int| window_max(gv, x, y, r as int), a, b);
            } else {
                lemma_grid_from_fn_at(gv.width, gv.height, |x: int, y: int| window_min(gv, x, y, r as int), a, b);
            }
        }
        assert(gv.width * gv.height >= 0) by (nonlinear_arith)
            requires
                gv.width >= 0,
                gv.height >= 0,
        ;
        assert(target.data.len() == gv.width * gv.height);
        lemma_grid_ext(out@, target);
    }
    out
}

/// Replaces every pixel by the maximum of its `(2r+1)²` neighbourhood
/// (clipped to the image); a negative radius leaves an all-black image.
pub fn dilate(img: &mut GrayGrid, r: i32)
    requires
        old(img)@.wf(),
    ensures
        final(img)@ == dilate_spec(old(img)@, r as int),
        final(img)@.wf(),
{
    let out = morph(img, r, true);
    *img = out;
}

/// Replaces every pixel by the minimum of its `(2r+1)²` neighbourhood
/// (clipped to the image); a negative radius leaves an all-white image.
pub fn erode(img: &mut GrayGrid, r: i32)
    requires
        old(img)@.wf(),
    ensures
        final(img)@ == erode_spec(old(img)@, r as int),
        final(img)@.wf(),
{
    let out = morph(img, r, false);
    *img = out;
}


/// Sum of a byte sequence.
pub open spec fn sum_bytes(s: Seq<u8>) -> int
    decreases s.len(),
{
    if s.len() == 0 {
        0
    } else {
        sum_bytes(s.drop_last()) + s.last()
    }
}

proof fn lemma_sum_bytes_bound(s: Seq<u8>)
    ensures
        0 <= sum_bytes(s) <= 255 * s.len(),
    decreases s.len(),
{
    if s.len() > 0 {
        lemma_sum_bytes_bound(s.drop_last());
    }
}

/// The binary mask of pixels darker than `t`: 255 where `g < t`, 0 elsewhere.
pub open spec fn threshold_below(g: GridView, t: int) -> GridView {
    GridView {
        width: g.width,
        height: g.height,
        data: Seq::new(g.data.len(), |i: int| if g.data[i] < t { 255u8 } else { 0u8 }),
    }
}

/// Mean gray level, rounded down (0 for an empty image).
pub open spec fn mean_level(g: GridView) -> int {
    if g.data.len() == 0 {
        0
    } else {
        sum_bytes(g.data) / (g.data.len() as int)
    }
}

/// The binary mask of dark pixels of an image with the given gray threshold.
pub fn wall_mask(gray: &GrayGrid, thresh: u8) -> (out: GrayGrid)
    requires
        gray@.wf(),
    ensures
        out@ == threshold_below(gray@, thresh as int),
        out@.wf(),
{
    let src = gray.as_raw();
    let n = src.len();
    let mut data: Vec<u8> = Vec::with_capacity(n);
    let mut i: usize = 0;
    while i < n
        invariant
            n == src@.len(),
            i <= n,
            data@.len() == i,
            forall|k: int| 0 <= k < i ==> #[trigger] data@[k] == (if src@[k] < thresh { 255u8 } else { 0u8 }),
        decreases n - i,
    {
        let v: u8 = if src[i] < thresh {
            255
        } else {
            0
        };
        data.push(v);
        i = i + 1;
    }
    let out = GrayGrid { width: gray.width, height: gray.height, pixels: data };
    assert(out@.data =~= threshold_below(gray@, thresh as int).data);
    out
}

/// The binarisation used for black-and-white line drawings: pixels more than
/// 20 levels darker than the mean become 255, then a 3×3 closing (dilate,
/// erode) removes pinholes.
pub open spec fn adaptive_threshold_spec(g: GridView) -> GridView {
    let t = if mean_level(g) >= 20 {
        mean_level(g) - 20
    } else {
        0
    };
    erode_spec(dilate_spec(threshold_below(g, t), 1), 1)
}

/// Binarises a line drawing against its mean gray level.
pub fn adaptive_threshold(gray: &GrayGrid) -> (out: GrayGrid)
    requires
        gray@.wf(),
        255 * gray@.data.len() <= u64::MAX,
    ensures
        out@ == adaptive_threshold_spec(gray@),
        out@.wf(),
{
    let src = gray.as_raw();
    let n = src.len();
    let mut sum: u64 = 0;
    let mut i: usize = 0;
    while i < n
        invariant
            n == src@.len(),
            i <= n,
            255 * n <= u64::MAX,
            sum == sum_bytes(src@.take(i as int)),
        decreases n - i,
    {
        proof {
            assert(src@.take(i as int + 1).drop_last() =~= src@.take(i as int));
            lemma_sum_bytes_bound(src@.take(i as int + 1));
        }
        sum = sum + src[i] as u64;
        i = i + 1;
    }
    proof {
        assert(src@.take(n as int) =~= src@);
        lemma_sum_bytes_bound(src@);
    }
    let count: u64 = if n == 0 {
        1
    } else {
        n as u64
    };
    let mean64 = sum / count;
    proof {
        if n > 0 {
            assert(sum / count <= 255) by (nonlinear_arith)
                requires
                    sum <= 255 * count,
                    count > 0,
            ;
        }
    }
    let mean = mean64 as u8;
    let thresh = mean.saturating_sub(20);
    let mut out = wall_mask(gray, thresh);
    dilate(&mut out, 1);
    erode(&mut out, 1);
    out
}

/// Boundary pixels of a binary image: set pixels (not on the image border)
/// with at least one unset 4-neighbour become 255; everything else is 0.
pub open spec fn edges_spec(b: GridView) -> GridView {
    grid_from_fn(
        b.width,
        b.height,
        |x: int, y: int|
            if 1 <= x < b.width - 1 && 1 <= y < b.height - 1 && b.at(x, y) != 0 && (b.at(x - 1, y) == 0 || b.at(
                x + 1,
                y,
            ) == 0 || b.at(x, y - 1) == 0 || b.at(x, y + 1) == 0) {
                255u8
            } else {
                0u8
            },
    )
}

/// Marks the boundary pixels of a binary image (at least one row high, and
/// at least one column wide when it has three or more rows).
pub fn simple_edges(binary: &GrayGrid) -> (edges: GrayGrid)
    requires
        binary@.wf(),
        binary@.height >= 1,
        binary@.width >= 1 || binary@.height < 3,
    ensures
        edges@ == edges_spec(binary@),
        edges@.wf(),
{
    let ghost b = binary@;
    let w = binary.width();
    let h = binary.height();
    let n0 = binary.as_raw().len();
    assert(w as int * h as int <= usize::MAX);
    let mut edges = GrayGrid::new(w, h);
    let mut y: u32 = 1;
    while y < h - 1
        invariant
            b == binary@,
            b.wf(),
            w == b.width,
            h == b.height,
            h >= 1,
            h >= 3 ==> w >= 1,
            1 <= y <= h,
            edges@.wf(),
            edges@.same_shape(b),
            forall|a: int, c: int|
                #![trigger edges@.at(a, c)]
                edges@.inside(a, c) ==> edges@.at(a, c) == (if c < y && edges_spec(b).inside(a, c) {
                    edge_value(b, a, c)
                } else {
                    0u8
                }),
        decreases h - y,
    {
        let mut x: u32 = 1;
        while x < w - 1
            invariant
                b == binary@,
                b.wf(),
                w == b.width,
                h == b.height,
                w >= 1,
                1 <= y < h - 1,
                1 <= x <= w,
                edges@.wf(),
                edges@.same_shape(b),
                forall|a: int, c: int|
                    #![trigger edges@.at(a, c)]
                    edges@.inside(a, c) ==> edges@.at(a, c) == (if (c < y || (c == y && a < x))
                        && edges_spec(b).inside(a, c) {
                        edge_value(b, a, c)
                    } else {
                        0u8
                    }),
            decreases w - x,
        {
            let c = binary.get(x, y);
            if c != 0 {
                let l = binary.get(x - 1, y);
                let r = binary.get(x + 1, y);
                let u = binary.get(x, y - 1);
                let d = binary.get(x, y + 1);
                if l == 0 || r == 0 || u == 0 || d == 0 {
                    edges.put(x, y, 255);
                }
            }
            x = x + 1;
        }
        y = y + 1;
    }
    proof {
        let t = edges_spec(b);
        assert forall|a: int, c: int| edges@.inside(a, c) implies #[trigger] edges@.at(a, c) == t.at(a, c) by {
            lemma_grid_from_fn_at(
                b.width,
                b.height,
                |x: int, y: int|
                    if 1 <= x < b.width - 1 && 1 <= y < b.height - 1 && b.at(x, y) != 0 && (b.at(x - 1, y) == 0
                        || b.at(x + 1, y) == 0 || b.at(x, y - 1) == 0 || b.at(x, y + 1) == 0) {
                        255u8
                    } else {
                        0u8
                    },
                a,
                c,
            );
        }
        assert(b.width * b.height >= 0) by (nonlinear_arith)
            requires
                b.width >= 0,
                b.height >= 0,
        ;
        lemma_grid_ext(edges@, t);
    }
    edges
}

/// The edge value of pixel `(x, y)` when it lies strictly inside the border.
pub open spec fn edge_value(b: GridView, x: int, y: int) -> u8 {
    if 1 <= x < b.width - 1 && 1 <= y < b.height - 1 && b.at(x, y) != 0 && (b.at(x - 1, y) == 0 || b.at(x + 1, y)
        == 0 || b.at(x, y - 1) == 0 || b.at(x, y + 1) == 0) {
        255u8
    } else {
        0u8
    }
}

} // verus!
