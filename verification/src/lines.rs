//! Straight runs of set pixels: the line segments read off an edge image.
use vstd::prelude::*;
use crate::raster::{GrayGrid, GridView, adaptive_threshold, simple_edges, adaptive_threshold_spec, edges_spec};

verus! {

/// An axis-aligned pixel segment from `(x0, y0)` to `(x1, y1)`, both inclusive.
#[derive(Debug, Clone, Copy, PartialEq, Eq, Structural)]
pub struct PixelSeg {
    pub x0: u32,
    pub y0: u32,
    pub x1: u32,
    pub y1: u32,
}

/// Shortest run (in pixels) that counts as a line.
pub const MIN_RUN: u32 = 15;

/// End (exclusive) of the run of set pixels in row `y` that starts at `x`.
pub open spec fn h_run_end(g: GridView, y: int, x: int) -> int
    decreases g.width - x,
{
    if x < 0 || x >= g.width || g.at(x, y) == 0 {
        x
    } else {
        h_run_end(g, y, x + 1)
    }
}

/// End (exclusive) of the run of set pixels in column `x` that starts at `y`.
pub open spec fn v_run_end(g: GridView, x: int, y: int) -> int
    decreases g.height - y,
{
    if y < 0 || y >= g.height || g.at(x, y) == 0 {
        y
    } else {
        v_run_end(g, x, y + 1)
    }
}

pub proof fn lemma_h_run_end(g: GridView, y: int, x: int)
    ensures
        h_run_end(g, y, x) >= x,
        0 <= x < g.width && g.at(x, y) != 0 ==> h_run_end(g, y, x) > x,
        0 <= x ==> h_run_end(g, y, x) <= g.width || x > g.width,
        0 <= x <= g.width ==> h_run_end(g, y, x) <= g.width,
        forall|k: int| x <= k < h_run_end(g, y, x) ==> #[trigger] g.at(k, y) != 0,
        0 <= x && h_run_end(g, y, x) < g.width ==> g.at(h_run_end(g, y, x), y) == 0,
    decreases g.width - x,
{
    if !(x < 0 || x >= g.width || g.at(x, y) == 0) {
        lemma_h_run_end(g, y, x + 1);
    }
}

pub proof fn lemma_v_run_end(g: GridView, x: int, y: int)
    ensures
        v_run_end(g, x, y) >= y,
        0 <= y < g.height && g.at(x, y) != 0 ==> v_run_end(g, x, y) > y,
        0 <= y <= g.height ==> v_run_end(g, x, y) <= g.height,
        forall|k: int| y <= k < v_run_end(g, x, y) ==> #[trigger] g.at(x, k) != 0,
        0 <= y && v_run_end(g, x, y) < g.height ==> g.at(x, v_run_end(g, x, y)) == 0,
    decreases g.height - y,
{
    if !(y < 0 || y >= g.height || g.at(x, y) == 0) {
        lemma_v_run_end(g, x, y + 1);
    }
}

/// The horizontal segments of row `y` from column `x` on: one per maximal run
/// of set pixels at least [`MIN_RUN`] long, left to right.
pub open spec fn h_runs_from(g: GridView, y: int, x: int) -> Seq<PixelSeg>
    decreases g.width - x,
{
    if x < 0 || x >= g.width {
        Seq::empty()
    } else if g.at(x, y) == 0 {
        h_runs_from(g, y, x + 1)
    } else {
        let e = h_run_end(g, y, x);
        proof {
            lemma_h_run_end(g, y, x);
        }
        (if e - x >= MIN_RUN {
            seq![PixelSeg { x0: x as u32, y0: y as u32, x1: (e - 1) as u32, y1: y as u32 }]
        } else {
            Seq::empty()
        }) + h_runs_from(g, y, e)
    }
}

/// The vertical segments of column `x` from row `y` on, top to bottom.
pub open spec fn v_runs_from(g: GridView, x: int, y: int) -> Seq<PixelSeg>
    decreases g.height - y,
{
    if y < 0 || y >= g.height {
        Seq::empty()
    } else if g.at(x, y) == 0 {
        v_runs_from(g, x, y + 1)
    } else {
        let e = v_run_end(g, x, y);
        proof {
            lemma_v_run_end(g, x, y);
        }
        (if e - y >= MIN_RUN {
            seq![PixelSeg { x0: x as u32, y0: y as u32, x1: x as u32, y1: (e - 1) as u32 }]
        } else {
            Seq::empty()
        }) + v_runs_from(g, x, e)
    }
}

/// Horizontal segments of the first `rows` rows, row by row.
pub open spec fn h_segs(g: GridView, rows: int) -> Seq<PixelSeg>
    decreases rows,
{
    if rows <= 0 {
        Seq::empty()
    } else {
        h_segs(g, rows - 1) + h_runs_from(g, rows - 1, 0)
    }
}

/// Vertical segments of the first `cols` columns, column by column.
pub open spec fn v_segs(g: GridView, cols: int) -> Seq<PixelSeg>
    decreases cols,
{
    if cols <= 0 {
        Seq::empty()
    } else {
        v_segs(g, cols - 1) + v_runs_from(g, cols - 1, 0)
    }
}

/// All line segments of an edge image: every horizontal run, then every
/// vertical run, each at least [`MIN_RUN`] pixels long.
pub open spec fn line_segments_spec(g: GridView) -> Seq<PixelSeg> {
    h_segs(g, g.height) + v_segs(g, g.width)
}

fn push_row_runs(edges: &GrayGrid, y: u32, segs: &mut Vec<PixelSeg>)
    requires
        edges@.wf(),
        y < edges@.height,
    ensures
        final(segs)@ == old(segs)@ + h_runs_from(edges@, y as int, 0),
{
    let ghost g = edges@;
    let ghost base = segs@;
    let w = edges.width();
    let mut x: u32 = 0;
    while x < w
        invariant
            g == edges@,
            g.wf(),
            w == g.width,
            y < g.height,
            x <= w,
            base + h_runs_from(g, y as int, 0) == segs@ + h_runs_from(g, y as int, x as int),
        decreases w - x,
    {
        let ghost x0 = x;
        while x < w && edges.get(x, y) == 0
            invariant
                x0 <= x,
                g == edges@,
                g.wf(),
                w == g.width,
                y < g.height,
                x <= w,
                base + h_runs_from(g, y as int, 0) == segs@ + h_runs_from(g, y as int, x as int),
            decreases w - x,
        {
            x = x + 1;
        }
        if x < w {
            let start = x;
            proof {
                lemma_h_run_end(g, y as int, start as int);
            }
            while x < w && edges.get(x, y) > 0
                invariant
                    g == edges@,
                    g.wf(),
                    w == g.width,
                    y < g.height,
                    start <= x <= w,
                    h_run_end(g, y as int, start as int) == h_run_end(g, y as int, x as int),
                decreases w - x,
            {
                x = x + 1;
            }
            let end = x;
            proof {
                lemma_h_run_end(g, y as int, end as int);
                assert(h_run_end(g, y as int, end as int) == end);
            }
            if end - start >= MIN_RUN {
                segs.push(PixelSeg { x0: start, y0: y, x1: end - 1, y1: y });
            }
            proof {
                assert(segs@ + h_runs_from(g, y as int, end as int) =~= base + h_runs_from(g, y as int, 0));
            }
        }
    }
}

fn push_col_runs(edges: &GrayGrid, x: u32, segs: &mut Vec<PixelSeg>)
    requires
        edges@.wf(),
        x < edges@.width,
    ensures
        final(segs)@ == old(segs)@ + v_runs_from(edges@, x as int, 0),
{
    let ghost g = edges@;
    let ghost base = segs@;
    let h = edges.height();
    let mut y: u32 = 0;
    while y < h
        invariant
            g == edges@,
            g.wf(),
            h == g.height,
            x < g.width,
            y <= h,
            base + v_runs_from(g, x as int, 0) == segs@ + v_runs_from(g, x as int, y as int),
        decreases h - y,
    {
        let ghost y0 = y;
        while y < h && edges.get(x, y) == 0
            invariant
                y0 <= y,
                g == edges@,
                g.wf(),
                h == g.height,
                x < g.width,
                y <= h,
                base + v_runs_from(g, x as int, 0) == segs@ + v_runs_from(g, x as int, y as int),
            decreases h - y,
        {
            y = y + 1;
        }
        if y < h {
            let start = y;
            proof {
                lemma_v_run_end(g, x as int, start as int);
            }
            while y < h && edges.get(x, y) > 0
                invariant
                    g == edges@,
                    g.wf(),
                    h == g.height,
                    x < g.width,
                    start <= y <= h,
                    v_run_end(g, x as int, start as int) == v_run_end(g, x as int, y as int),
                decreases h - y,
            {
                y = y + 1;
            }
            let end = y;
            proof {
                lemma_v_run_end(g, x as int, end as int);
                assert(v_run_end(g, x as int, end as int) == end);
            }
            if end - start >= MIN_RUN {
                segs.push(PixelSeg { x0: x, y0: start, x1: x, y1: end - 1 });
            }
            proof {
                assert(segs@ + v_runs_from(g, x as int, end as int) =~= base + v_runs_from(g, x as int, 0));
            }
        }
    }
}

/// Reads the horizontal, then the vertical, runs of set pixels of an edge
/// image as segments, keeping runs of at least [`MIN_RUN`] pixels.
pub fn extract_line_segments(edges: &GrayGrid) -> (segs: Vec<PixelSeg>)
    requires
        edges@.wf(),
    ensures
        segs@ == line_segments_spec(edges@),
{
    let ghost g = edges@;
    let w = edges.width();
    let h = edges.height();
    let mut segs: Vec<PixelSeg> = Vec::new();
    let mut y: u32 = 0;
    while y < h
        invariant
            g == edges@,
            g.wf(),
            w == g.width,
            h == g.height,
            y <= h,
            segs@ == h_segs(g, y as int),
        decreases h - y,
    {
        push_row_runs(edges, y, &mut segs);
        y = y + 1;
    }
    let mut x: u32 = 0;
    while x < w
        invariant
            g == edges@,
            g.wf(),
            w == g.width,
            h == g.height,
            x <= w,
            segs@ == h_segs(g, h as int) + v_segs(g, x as int),
        decreases w - x,
    {
        push_col_runs(edges, x, &mut segs);
        proof {
            assert(h_segs(g, h as int) + v_segs(g, x as int + 1) =~= h_segs(g, h as int) + v_segs(g, x as int)
                + v_runs_from(g, x as int, 0));
        }
        x = x + 1;
    }
    segs
}


/// `s` covers a straight run of set pixels of `g`, at least [`MIN_RUN`]
/// pixels long: a stretch of one row or of one column, inside the image.
pub open spec fn on_run(g: GridView, s: PixelSeg) -> bool {
    ||| {
        &&& s.y0 == s.y1
        &&& s.x0 <= s.x1
        &&& s.x1 - s.x0 + 1 >= MIN_RUN
        &&& s.x1 < g.width
        &&& s.y0 < g.height
        &&& forall|x: int| s.x0 <= x <= s.x1 ==> #[trigger] g.at(x, s.y0 as int) != 0
    }
    ||| {
        &&& s.x0 == s.x1
        &&& s.y0 <= s.y1
        &&& s.y1 - s.y0 + 1 >= MIN_RUN
        &&& s.x0 < g.width
        &&& s.y1 < g.height
        &&& forall|y: int| s.y0 <= y <= s.y1 ==> #[trigger] g.at(s.x0 as int, y) != 0
    }
}

/// Every segment of `segs` is a run of set pixels of `g`.
pub open spec fn all_on_runs(g: GridView, segs: Seq<PixelSeg>) -> bool {
    forall|k: int| 0 <= k < segs.len() ==> on_run(g, #[trigger] segs[k])
}

proof fn lemma_all_on_runs_concat(g: GridView, a: Seq<PixelSeg>, b: Seq<PixelSeg>)
    requires
        all_on_runs(g, a),
        all_on_runs(g, b),
    ensures
        all_on_runs(g, a + b),
{
    assert forall|k: int| 0 <= k < (a + b).len() implies on_run(g, #[trigger] (a + b)[k]) by {
        if k < a.len() {
            assert((a + b)[k] == a[k]);
        } else {
            assert((a + b)[k] == b[k - a.len()]);
        }
    }
}

proof fn lemma_h_runs_sound(g: GridView, y: int, x: int)
    requires
        g.wf(),
        0 <= y < g.height,
        0 <= x,
    ensures
        all_on_runs(g, h_runs_from(g, y, x)),
    decreases g.width - x,
{
    if x < g.width {
        if g.at(x, y) == 0 {
            lemma_h_runs_sound(g, y, x + 1);
        } else {
            let e = h_run_end(g, y, x);
            lemma_h_run_end(g, y, x);
            lemma_h_runs_sound(g, y, e);
            let head = if e - x >= MIN_RUN {
                seq![PixelSeg { x0: x as u32, y0: y as u32, x1: (e - 1) as u32, y1: y as u32 }]
            } else {
                Seq::<PixelSeg>::empty()
            };
            if e - x >= MIN_RUN {
                let sg = PixelSeg { x0: x as u32, y0: y as u32, x1: (e - 1) as u32, y1: y as u32 };
                assert forall|k: int| sg.x0 <= k <= sg.x1 implies #[trigger] g.at(k, sg.y0 as int) != 0 by {
                    assert(x <= k < e);
                }
                assert(on_run(g, sg));
                assert(head[0] == sg);
            }
            assert(all_on_runs(g, head));
            lemma_all_on_runs_concat(g, head, h_runs_from(g, y, e));
        }
    }
}

proof fn lemma_v_runs_sound(g: GridView, x: int, y: int)
    requires
        g.wf(),
        0 <= x < g.width,
        0 <= y,
    ensures
        all_on_runs(g, v_runs_from(g, x, y)),
    decreases g.height - y,
{
    if y < g.height {
        if g.at(x, y) == 0 {
            lemma_v_runs_sound(g, x, y + 1);
        } else {
            let e = v_run_end(g, x, y);
            lemma_v_run_end(g, x, y);
            lemma_v_runs_sound(g, x, e);
            let head = if e - y >= MIN_RUN {
                seq![PixelSeg { x0: x as u32, y0: y as u32, x1: x as u32, y1: (e - 1) as u32 }]
            } else {
                Seq::<PixelSeg>::empty()
            };
            if e - y >= MIN_RUN {
                let sg = PixelSeg { x0: x as u32, y0: y as u32, x1: x as u32, y1: (e - 1) as u32 };
                assert forall|k: int| sg.y0 <= k <= sg.y1 implies #[trigger] g.at(sg.x0 as int, k) != 0 by {
                    assert(y <= k < e);
                }
                assert(on_run(g, sg));
                assert(head[0] == sg);
            }
            assert(all_on_runs(g, head));
            lemma_all_on_runs_concat(g, head, v_runs_from(g, x, e));
        }
    }
}

proof fn lemma_h_segs_sound(g: GridView, rows: int)
    requires
        g.wf(),
        rows <= g.height,
    ensures
        all_on_runs(g, h_segs(g, rows)),
    decreases rows,
{
    if rows > 0 {
        lemma_h_segs_sound(g, rows - 1);
        lemma_h_runs_sound(g, rows - 1, 0);
        lemma_all_on_runs_concat(g, h_segs(g, rows - 1), h_runs_from(g, rows - 1, 0));
    }
}

proof fn lemma_v_segs_sound(g: GridView, cols: int)
    requires
        g.wf(),
        cols <= g.width,
    ensures
        all_on_runs(g, v_segs(g, cols)),
    decreases cols,
{
    if cols > 0 {
        lemma_v_segs_sound(g, cols - 1);
        lemma_v_runs_sound(g, cols - 1, 0);
        lemma_all_on_runs_concat(g, v_segs(g, cols - 1), v_runs_from(g, cols - 1, 0));
    }
}

/// Every segment read off an edge image is a horizontal or vertical run of
/// set pixels inside the image, at least [`MIN_RUN`] pixels long.
pub proof fn lemma_line_segments_on_runs(g: GridView)
    requires
        g.wf(),
    ensures
        all_on_runs(g, line_segments_spec(g)),
{
    lemma_h_segs_sound(g, g.height);
    lemma_v_segs_sound(g, g.width);
    lemma_all_on_runs_concat(g, h_segs(g, g.height), v_segs(g, g.width));
}


/// Length of an axis-aligned segment (the Manhattan length, which is its
/// Euclidean length when one of the two spans is zero).
pub open spec fn seg_span(s: PixelSeg) -> int {
    (if s.x1 >= s.x0 { s.x1 - s.x0 } else { s.x0 - s.x1 }) + (if s.y1 >= s.y0 { s.y1 - s.y0 } else { s.y0 - s.y1 })
}

/// The segments at least `min_len` long, in order.
pub open spec fn keep_min_span(s: Seq<PixelSeg>, min_len: int) -> Seq<PixelSeg>
    decreases s.len(),
{
    if s.len() == 0 {
        Seq::empty()
    } else {
        keep_min_span(s.drop_last(), min_len) + (if seg_span(s.last()) >= min_len {
            seq![s.last()]
        } else {
            Seq::empty()
        })
    }
}

/// Length of an axis-aligned segment.
pub fn seg_length(s: &PixelSeg) -> (r: u64)
    ensures
        r == seg_span(*s),
{
    let dx: u64 = if s.x1 >= s.x0 {
        (s.x1 - s.x0) as u64
    } else {
        (s.x0 - s.x1) as u64
    };
    let dy: u64 = if s.y1 >= s.y0 {
        (s.y1 - s.y0) as u64
    } else {
        (s.y0 - s.y1) as u64
    };
    dx + dy
}

/// Keeps the segments at least `min_len` long, preserving order.
pub fn retain_min_length(segs: &Vec<PixelSeg>, min_len: u64) -> (r: Vec<PixelSeg>)
    ensures
        r@ == keep_min_span(segs@, min_len as int),
{
    let mut out: Vec<PixelSeg> = Vec::new();
    let mut i: usize = 0;
    while i < segs.len()
        invariant
            i <= segs@.len(),
            out@ == keep_min_span(segs@.take(i as int), min_len as int),
        decreases segs@.len() - i,
    {
        proof {
            assert(segs@.take(i as int + 1).drop_last() =~= segs@.take(i as int));
        }
        if seg_length(&segs[i]) >= min_len {
            out.push(segs[i]);
        }
        proof {
            assert(out@ =~= keep_min_span(segs@.take(i as int + 1), min_len as int));
        }
        i = i + 1;
    }
    proof {
        assert(segs@.take(segs@.len() as int) =~= segs@);
    }
    out
}

/// Segment detection for plain black-and-white drawings: binarise against
/// the mean, take the boundary pixels, read off the straight runs, and keep
/// those at least `min_len` pixels long.
pub fn detect_edge_segments(gray: &GrayGrid, min_len: u64) -> (segs: Vec<PixelSeg>)
    requires
        gray@.wf(),
        gray@.height >= 1,
        gray@.width >= 1 || gray@.height < 3,
        255 * gray@.data.len() <= u64::MAX,
    ensures
        segs@ == keep_min_span(line_segments_spec(edges_spec(adaptive_threshold_spec(gray@))), min_len as int),
{
    let binary = adaptive_threshold(gray);
    let edges = simple_edges(&binary);
    let all = extract_line_segments(&edges);
    retain_min_length(&all, min_len)
}

/// Scanning row `y` from any column `x` at or before the start `a` of a
/// maximal run `[a, b]` reaches that run and reports it when long enough.
proof fn lemma_h_runs_reach(g: GridView, y: int, x: int, a: int, b: int)
    requires
        g.wf(),
        0 <= y < g.height,
        0 <= x <= a <= b < g.width,
        b - a + 1 >= MIN_RUN,
        forall|k: int| a <= k <= b ==> #[trigger] g.at(k, y) != 0,
        a == 0 || g.at(a - 1, y) == 0,
        b == g.width - 1 || g.at(b + 1, y) == 0,
    ensures
        h_runs_from(g, y, x).contains(PixelSeg { x0: a as u32, y0: y as u32, x1: b as u32, y1: y as u32 }),
    decreases a - x,
{
    let sg = PixelSeg { x0: a as u32, y0: y as u32, x1: b as u32, y1: y as u32 };
    if g.at(x, y) == 0 {
        assert(x < a);
        lemma_h_runs_reach(g, y, x + 1, a, b);
        assert(h_runs_from(g, y, x) == h_runs_from(g, y, x + 1));
    } else {
        let e = h_run_end(g, y, x);
        lemma_h_run_end(g, y, x);
        let head = if e - x >= MIN_RUN {
            seq![PixelSeg { x0: x as u32, y0: y as u32, x1: (e - 1) as u32, y1: y as u32 }]
        } else {
            Seq::<PixelSeg>::empty()
        };
        assert(h_runs_from(g, y, x) == head + h_runs_from(g, y, e));
        if x == a {
            if e <= b {
                assert(g.at(e, y) != 0);
            }
            if e > b + 1 {
                assert(g.at(b + 1, y) != 0);
            }
            assert(e == b + 1);
            assert(head[0] == sg);
            assert((head + h_runs_from(g, y, e))[0] == sg);
        } else {
            if e > a - 1 {
                assert(g.at(a - 1, y) != 0);
            }
            lemma_h_runs_reach(g, y, e, a, b);
            let r = h_runs_from(g, y, e);
            let k = choose|k: int| 0 <= k < r.len() && r[k] == sg;
            assert((head + r)[head.len() + k] == sg);
        }
    }
}

/// Scanning column `x` from any row `y` at or before the start `a` of a
/// maximal run `[a, b]` reaches that run and reports it when long enough.
proof fn lemma_v_runs_reach(g: GridView, x: int, y: int, a: int, b: int)
    requires
        g.wf(),
        0 <= x < g.width,
        0 <= y <= a <= b < g.height,
        b - a + 1 >= MIN_RUN,
        forall|k: int| a <= k <= b ==> #[trigger] g.at(x, k) != 0,
        a == 0 || g.at(x, a - 1) == 0,
        b == g.height - 1 || g.at(x, b + 1) == 0,
    ensures
        v_runs_from(g, x, y).contains(PixelSeg { x0: x as u32, y0: a as u32, x1: x as u32, y1: b as u32 }),
    decreases a - y,
{
    let sg = PixelSeg { x0: x as u32, y0: a as u32, x1: x as u32, y1: b as u32 };
    if g.at(x, y) == 0 {
        assert(y < a);
        lemma_v_runs_reach(g, x, y + 1, a, b);
        assert(v_runs_from(g, x, y) == v_runs_from(g, x, y + 1));
    } else {
        let e = v_run_end(g, x, y);
        lemma_v_run_end(g, x, y);
        let head = if e - y >= MIN_RUN {
            seq![PixelSeg { x0: x as u32, y0: y as u32, x1: x as u32, y1: (e - 1) as u32 }]
        } else {
            Seq::<PixelSeg>::empty()
        };
        assert(v_runs_from(g, x, y) == head + v_runs_from(g, x, e));
        if y == a {
            if e <= b {
                assert(g.at(x, e) != 0);
            }
            if e > b + 1 {
                assert(g.at(x, b + 1) != 0);
            }
            assert(e == b + 1);
            assert(head[0] == sg);
            assert((head + v_runs_from(g, x, e))[0] == sg);
        } else {
            if e > a - 1 {
                assert(g.at(x, a - 1) != 0);
            }
            lemma_v_runs_reach(g, x, e, a, b);
            let r = v_runs_from(g, x, e);
            let k = choose|k: int| 0 <= k < r.len() && r[k] == sg;
            assert((head + r)[head.len() + k] == sg);
        }
    }
}

proof fn lemma_h_segs_contain(g: GridView, rows: int, y: int, sg: PixelSeg)
    requires
        0 <= y < rows,
        h_runs_from(g, y, 0).contains(sg),
    ensures
        h_segs(g, rows).contains(sg),
    decreases rows,
{
    let prev = h_segs(g, rows - 1);
    let cur = h_runs_from(g, rows - 1, 0);
    if y < rows - 1 {
        lemma_h_segs_contain(g, rows - 1, y, sg);
        let k = choose|k: int| 0 <= k < prev.len() && prev[k] == sg;
        assert((prev + cur)[k] == sg);
    } else {
        let k = choose|k: int| 0 <= k < cur.len() && cur[k] == sg;
        assert((prev + cur)[prev.len() + k] == sg);
    }
}

proof fn lemma_v_segs_contain(g: GridView, cols: int, x: int, sg: PixelSeg)
    requires
        0 <= x < cols,
        v_runs_from(g, x, 0).contains(sg),
    ensures
        v_segs(g, cols).contains(sg),
    decreases cols,
{
    let prev = v_segs(g, cols - 1);
    let cur = v_runs_from(g, cols - 1, 0);
    if x < cols - 1 {
        lemma_v_segs_contain(g, cols - 1, x, sg);
        let k = choose|k: int| 0 <= k < prev.len() && prev[k] == sg;
        assert((prev + cur)[k] == sg);
    } else {
        let k = choose|k: int| 0 <= k < cur.len() && cur[k] == sg;
        assert((prev + cur)[prev.len() + k] == sg);
    }
}

/// Every maximal horizontal run of set pixels at least [`MIN_RUN`] long is
/// read off as a segment: no wall line is skipped, however many runs share
/// its row.
pub proof fn lemma_line_segments_complete_rows(g: GridView, y: int, a: int, b: int)
    requires
        g.wf(),
        0 <= y < g.height,
        0 <= a <= b < g.width,
        b - a + 1 >= MIN_RUN,
        forall|k: int| a <= k <= b ==> #[trigger] g.at(k, y) != 0,
        a == 0 || g.at(a - 1, y) == 0,
        b == g.width - 1 || g.at(b + 1, y) == 0,
    ensures
        line_segments_spec(g).contains(PixelSeg { x0: a as u32, y0: y as u32, x1: b as u32, y1: y as u32 }),
{
    let sg = PixelSeg { x0: a as u32, y0: y as u32, x1: b as u32, y1: y as u32 };
    lemma_h_runs_reach(g, y, 0, a, b);
    lemma_h_segs_contain(g, g.height, y, sg);
    let hs = h_segs(g, g.height);
    let k = choose|k: int| 0 <= k < hs.len() && hs[k] == sg;
    assert((hs + v_segs(g, g.width))[k] == sg);
}

/// Every maximal vertical run of set pixels at least [`MIN_RUN`] long is
/// read off as a segment.
pub proof fn lemma_line_segments_complete_cols(g: GridView, x: int, a: int, b: int)
    requires
        g.wf(),
        0 <= x < g.width,
        0 <= a <= b < g.height,
        b - a + 1 >= MIN_RUN,
        forall|k: int| a <= k <= b ==> #[trigger] g.at(x, k) != 0,
        a == 0 || g.at(x, a - 1) == 0,
        b == g.height - 1 || g.at(x, b + 1) == 0,
    ensures
        line_segments_spec(g).contains(PixelSeg { x0: x as u32, y0: a as u32, x1: x as u32, y1: b as u32 }),
{
    let sg = PixelSeg { x0: x as u32, y0: a as u32, x1: x as u32, y1: b as u32 };
    lemma_v_runs_reach(g, x, 0, a, b);
    lemma_v_segs_contain(g, g.width, x, sg);
    let hs = h_segs(g, g.height);
    let vs = v_segs(g, g.width);
    let k = choose|k: int| 0 <= k < vs.len() && vs[k] == sg;
    assert((hs + vs)[hs.len() + k] == sg);
}

} // verus!
