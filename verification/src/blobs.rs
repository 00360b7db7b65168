//! Removal of small connected blobs from a binary mask.
use vstd::prelude::*;
use crate::raster::{GrayGrid, GridView, grid_from_fn, lemma_index, lemma_index_inv, lemma_grid_ext, lemma_grid_from_fn_at};

verus! {

/// `(x, y)` is a set pixel of `g`.
pub open spec fn is_set(g: GridView, x: int, y: int) -> bool {
    g.inside(x, y) && g.at(x, y) > 0
}

/// Two pixels share an edge.
pub open spec fn adjacent(a: (int, int), b: (int, int)) -> bool {
    (a.0 == b.0 && (a.1 - b.1 == 1 || b.1 - a.1 == 1)) || (a.1 == b.1 && (a.0 - b.0 == 1 || b.0 - a.0 == 1))
}

/// A walk over set pixels, each step to an edge-adjacent pixel.
pub open spec fn is_path(g: GridView, path: Seq<(int, int)>) -> bool {
    &&& path.len() >= 1
    &&& forall|k: int| 0 <= k < path.len() ==> is_set(g, #[trigger] path[k].0, path[k].1)
    &&& forall|k: int| 0 <= k < path.len() - 1 ==> adjacent(#[trigger] path[k], path[k + 1])
}

/// `q` can be reached from `p` through edge-adjacent set pixels.
pub open spec fn connected(g: GridView, p: (int, int), q: (int, int)) -> bool {
    exists|path: Seq<(int, int)>| #[trigger] is_path(g, path) && path[0] == p && path.last() == q
}

/// Pixel coordinates of a row-major index.
pub open spec fn pos(g: GridView, i: int) -> (int, int) {
    (i % g.width, i / g.width)
}

/// Number of the first `n` pixels (row-major) reachable from `p`.
pub open spec fn reach_count(g: GridView, p: (int, int), n: int) -> int
    decreases n,
{
    if n <= 0 {
        0
    } else {
        reach_count(g, p, n - 1) + if connected(g, p, pos(g, n - 1)) { 1int } else { 0int }
    }
}

/// Number of pixels in the 4-connected blob of set pixels containing `(x, y)`.
pub open spec fn component_size(g: GridView, x: int, y: int) -> int {
    reach_count(g, (x, y), g.width * g.height)
}

/// The mask with every blob of fewer than `min_area` pixels cleared.
pub open spec fn blobs_removed_spec(g: GridView, min_area: int) -> GridView {
    grid_from_fn(
        g.width,
        g.height,
        |x: int, y: int|
            if is_set(g, x, y) && component_size(g, x, y) < min_area {
                0u8
            } else {
                g.at(x, y)
            },
    )
}

pub proof fn lemma_connected_refl(g: GridView, p: (int, int))
    requires
        is_set(g, p.0, p.1),
    ensures
        connected(g, p, p),
{
    let path = seq![p];
    assert(is_path(g, path));
}

pub proof fn lemma_connected_step(g: GridView, p: (int, int), q: (int, int), r: (int, int))
    requires
        connected(g, p, q),
        adjacent(q, r),
        is_set(g, r.0, r.1),
    ensures
        connected(g, p, r),
{
    let path = choose|path: Seq<(int, int)>| #[trigger] is_path(g, path) && path[0] == p && path.last() == q;
    let p2 = path.push(r);
    assert forall|k: int| 0 <= k < p2.len() - 1 implies adjacent(#[trigger] p2[k], p2[k + 1]) by {
        if k < path.len() - 1 {
            assert(p2[k] == path[k] && p2[k + 1] == path[k + 1]);
        }
    }
    assert forall|k: int| 0 <= k < p2.len() implies is_set(g, #[trigger] p2[k].0, p2[k].1) by {
        if k < path.len() {
            assert(p2[k] == path[k]);
        }
    }
    assert(is_path(g, p2));
}

pub proof fn lemma_connected_sym(g: GridView, p: (int, int), q: (int, int))
    requires
        connected(g, p, q),
    ensures
        connected(g, q, p),
{
    let path = choose|path: Seq<(int, int)>| #[trigger] is_path(g, path) && path[0] == p && path.last() == q;
    let n = path.len() as int;
    let rev = Seq::new(n as nat, |k: int| path[n - 1 - k]);
    assert forall|k: int| 0 <= k < rev.len() - 1 implies adjacent(#[trigger] rev[k], rev[k + 1]) by {
        assert(adjacent(path[n - 2 - k], path[n - 2 - k + 1]));
    }
    assert forall|k: int| 0 <= k < rev.len() implies is_set(g, #[trigger] rev[k].0, rev[k].1) by {
        assert(is_set(g, path[n - 1 - k].0, path[n - 1 - k].1));
    }
    assert(is_path(g, rev));
}

pub proof fn lemma_connected_trans(g: GridView, p: (int, int), q: (int, int), r: (int, int))
    requires
        connected(g, p, q),
        connected(g, q, r),
    ensures
        connected(g, p, r),
{
    let a = choose|path: Seq<(int, int)>| #[trigger] is_path(g, path) && path[0] == p && path.last() == q;
    let b = choose|path: Seq<(int, int)>| #[trigger] is_path(g, path) && path[0] == q && path.last() == r;
    let c = a + b.subrange(1, b.len() as int);
    let na = a.len() as int;
    assert forall|k: int| 0 <= k < c.len() - 1 implies adjacent(#[trigger] c[k], c[k + 1]) by {
        if k < na - 1 {
            assert(c[k] == a[k] && c[k + 1] == a[k + 1]);
        } else if k == na - 1 {
            assert(c[k] == a[na - 1] && c[k + 1] == b[1]);
            assert(adjacent(b[0], b[1]));
        } else {
            assert(c[k] == b[k - na + 1] && c[k + 1] == b[k - na + 2]);
        }
    }
    assert forall|k: int| 0 <= k < c.len() implies is_set(g, #[trigger] c[k].0, c[k].1) by {
        if k < na {
            assert(c[k] == a[k]);
        } else {
            assert(c[k] == b[k - na + 1]);
        }
    }
    assert(is_path(g, c));
    if b.len() == 1 {
        assert(c.last() == a.last());
    } else {
        assert(c.last() == b.last());
    }
}

/// Number of the first `n` entries of `labels` equal to `v`.
pub open spec fn count_label(labels: Seq<u64>, n: int, v: u64) -> int
    decreases n,
{
    if n <= 0 {
        0
    } else {
        count_label(labels, n - 1, v) + if labels[n - 1] == v { 1int } else { 0int }
    }
}

/// Overwriting one entry changes each count by what left and what came.
pub proof fn lemma_count_update(labels: Seq<u64>, n: int, j: int, val: u64, v: u64)
    requires
        0 <= j < n <= labels.len(),
    ensures
        count_label(labels.update(j, val), n, v) == count_label(labels, n, v) - (if labels[j] == v {
            1int
        } else {
            0int
        }) + (if val == v {
            1int
        } else {
            0int
        }),
    decreases n,
{
    if j < n - 1 {
        lemma_count_update(labels, n - 1, j, val, v);
    } else {
        lemma_count_prefix(labels, labels.update(j, val), n - 1, v);
    }
}

/// Counts over two arrays that agree on the first `n` entries are equal.
pub proof fn lemma_count_prefix(a: Seq<u64>, b: Seq<u64>, n: int, v: u64)
    requires
        forall|i: int| 0 <= i < n ==> a[i] == b[i],
    ensures
        count_label(a, n, v) == count_label(b, n, v),
    decreases n,
{
    if n > 0 {
        lemma_count_prefix(a, b, n - 1, v);
    }
}

pub proof fn lemma_count_label_bound(labels: Seq<u64>, n: int, v: u64)
    ensures
        0 <= count_label(labels, n, v) <= if n >= 0 { n } else { 0 },
    decreases n,
{
    if n > 0 {
        lemma_count_label_bound(labels, n - 1, v);
    }
}

/// Label of pixel `(x, y)` in a row-major label array.
pub open spec fn lab(labels: Seq<u64>, w: int, x: int, y: int) -> u64 {
    labels[y * w + x]
}

/// Pixel `(x, y)` is a pending entry of the flood-fill stack.
pub open spec fn on_stack(stack: Seq<(u32, u32)>, x: int, y: int) -> bool {
    exists|k: int| 0 <= k < stack.len() && #[trigger] stack[k] == (x as u32, y as u32)
}

/// If `(nx, ny)` is set it carries the label of `(x, y)`.
pub open spec fn agrees(g: GridView, labels: Seq<u64>, x: int, y: int, nx: int, ny: int) -> bool {
    is_set(g, nx, ny) ==> lab(labels, g.width, nx, ny) == lab(labels, g.width, x, y)
}

/// Every set neighbour of `(x, y)` carries its label.
pub open spec fn closed_at(g: GridView, labels: Seq<u64>, x: int, y: int) -> bool {
    &&& agrees(g, labels, x, y, x - 1, y)
    &&& agrees(g, labels, x, y, x + 1, y)
    &&& agrees(g, labels, x, y, x, y - 1)
    &&& agrees(g, labels, x, y, x, y + 1)
}

/// Labels are at most `top`; a labelled pixel is set and reachable from the
/// seed of its label.
pub open spec fn labels_sound(g: GridView, labels: Seq<u64>, top: u64, seeds: Seq<(int, int)>) -> bool {
    &&& labels.len() == g.width * g.height
    &&& seeds.len() == top + 1
    &&& forall|x: int, y: int|
        g.inside(x, y) ==> {
            let l = #[trigger] lab(labels, g.width, x, y);
            l <= top && (l != 0 ==> is_set(g, x, y) && connected(g, seeds[l as int], (x, y)))
        }
}

/// Labelled pixels that are neither pending nor `open` have all their set
/// neighbours in the same label.
pub open spec fn labels_closed(g: GridView, labels: Seq<u64>, stack: Seq<(u32, u32)>, open: (int, int)) -> bool {
    forall|x: int, y: int|
        g.inside(x, y) && lab(labels, g.width, x, y) != 0 && !on_stack(stack, x, y) && (x, y) != open
            ==> #[trigger] closed_at(g, labels, x, y)
}

/// Pending pixels lie on the grid and carry the current label.
pub open spec fn stack_ok(g: GridView, labels: Seq<u64>, top: u64, stack: Seq<(u32, u32)>) -> bool {
    forall|k: int|
        0 <= k < stack.len() ==> g.inside(#[trigger] stack[k].0 as int, stack[k].1 as int) && lab(
            labels,
            g.width,
            stack[k].0 as int,
            stack[k].1 as int,
        ) == top
}

/// Updating the label of one pixel leaves every other pixel's label alone.
pub proof fn lemma_lab_update(g: GridView, labels: Seq<u64>, a: int, b: int, v: u64, x: int, y: int)
    requires
        g.inside(a, b),
        g.inside(x, y),
        labels.len() == g.width * g.height,
    ensures
        lab(labels.update(b * g.width + a, v), g.width, x, y) == if x == a && y == b {
            v
        } else {
            lab(labels, g.width, x, y)
        },
{
    lemma_index(g.width, g.height, a, b);
    lemma_index(g.width, g.height, x, y);
}


/// Labelling an unlabelled pixel keeps the neighbourhood of every other
/// labelled pixel as it was.
pub proof fn lemma_closed_after_label(g: GridView, labels: Seq<u64>, a: int, b: int, v: u64, x: int, y: int)
    requires
        g.wf(),
        labels.len() == g.width * g.height,
        g.inside(a, b),
        g.inside(x, y),
        (x, y) != (a, b),
        closed_at(g, labels, x, y),
        lab(labels, g.width, a, b) == 0,
        lab(labels, g.width, x, y) != 0,
    ensures
        closed_at(g, labels.update(b * g.width + a, v), x, y),
{
    let nl = labels.update(b * g.width + a, v);
    lemma_lab_update(g, labels, a, b, v, x, y);
    if is_set(g, x - 1, y) {
        lemma_lab_update(g, labels, a, b, v, x - 1, y);
    }
    if is_set(g, x + 1, y) {
        lemma_lab_update(g, labels, a, b, v, x + 1, y);
    }
    if is_set(g, x, y - 1) {
        lemma_lab_update(g, labels, a, b, v, x, y - 1);
    }
    if is_set(g, x, y + 1) {
        lemma_lab_update(g, labels, a, b, v, x, y + 1);
    }
}

proof fn lemma_visit_counts(n: int, old_l: Seq<u64>, new_l: Seq<u64>, j: int, top: u64)
    requires
        0 <= j < n,
        old_l.len() == n,
        old_l[j] == 0,
        top != 0,
        new_l == old_l.update(j, top),
    ensures
        count_label(new_l, n, top) == count_label(old_l, n, top) + 1,
        count_label(old_l, n, 0u64) == count_label(new_l, n, 0u64) + 1,
{
    lemma_count_update(old_l, n, j, top, top);
    lemma_count_update(old_l, n, j, top, 0u64);
}

/// Visits neighbour `(nx, ny)` of the pixel `c` being expanded: labels it and
/// queues it when it is set and still unlabelled.
fn visit(
    mask: &GrayGrid,
    labels: &mut Vec<u64>,
    stack: &mut Vec<(u32, u32)>,
    nx: u32,
    ny: u32,
    top: u64,
    Ghost(seeds): Ghost<Seq<(int, int)>>,
    Ghost(c): Ghost<(int, int)>,
)
    requires
        mask@.wf(),
        mask@.inside(nx as int, ny as int),
        mask@.inside(c.0, c.1),
        adjacent(c, (nx as int, ny as int)),
        top >= 1,
        lab(old(labels)@, mask@.width, c.0, c.1) == top,
        labels_sound(mask@, old(labels)@, top, seeds),
        labels_closed(mask@, old(labels)@, old(stack)@, c),
        stack_ok(mask@, old(labels)@, top, old(stack)@),
    ensures
        labels_sound(mask@, final(labels)@, top, seeds),
        labels_closed(mask@, final(labels)@, final(stack)@, c),
        stack_ok(mask@, final(labels)@, top, final(stack)@),
        is_set(mask@, nx as int, ny as int) ==> lab(final(labels)@, mask@.width, nx as int, ny as int) == top,
        (final(labels)@ == old(labels)@ && final(stack)@ == old(stack)@) || (lab(
            old(labels)@,
            mask@.width,
            nx as int,
            ny as int,
        ) == 0 && final(labels)@ == old(labels)@.update(ny * mask@.width + nx, top) && final(stack)@
            == old(stack)@.push((nx, ny))),
{
    let ghost g = mask@;
    let ghost l0 = labels@;
    let ghost s0 = stack@;
    let ghost n = (nx as int, ny as int);
    proof {
        lemma_index(g.width, g.height, nx as int, ny as int);
    }
    let w = mask.width();
    let nlab = labels.len();
    assert(labels@.len() == g.width * g.height);
    assert((ny as int) * (w as int) + (nx as int) < nlab as int);
    let idx = ny as usize * w as usize + nx as usize;
    if mask.get(nx, ny) > 0 && labels[idx] == 0 {
        labels.set(idx, top);
        stack.push((nx, ny));
        proof {
            let l1 = labels@;
            assert(l1 == l0.update(ny * g.width + nx, top));
            assert(lab(l0, g.width, nx as int, ny as int) == 0);
            // soundness
            assert(connected(g, seeds[top as int], c));
            lemma_connected_step(g, seeds[top as int], c, n);
            assert forall|x: int, y: int| g.inside(x, y) implies {
                let l = #[trigger] lab(l1, g.width, x, y);
                l <= top && (l != 0 ==> is_set(g, x, y) && connected(g, seeds[l as int], (x, y)))
            } by {
                lemma_lab_update(g, l0, nx as int, ny as int, top, x, y);
                let l = lab(l0, g.width, x, y);
            }
            // closure
            assert forall|x: int, y: int|
                g.inside(x, y) && lab(l1, g.width, x, y) != 0 && !on_stack(stack@, x, y) && (x, y) != c
                    implies #[trigger] closed_at(g, l1, x, y) by {
                lemma_lab_update(g, l0, nx as int, ny as int, top, x, y);
                if (x, y) != n {
                    if on_stack(s0, x, y) {
                        let k = choose|k: int| 0 <= k < s0.len() && #[trigger] s0[k] == (x as u32, y as u32);
                        assert(stack@[k] == s0[k]);
                    }
                    assert(closed_at(g, l0, x, y));
                    lemma_closed_after_label(g, l0, nx as int, ny as int, top, x, y);
                } else {
                    assert(stack@[s0.len() as int] == (nx, ny));
                }
            }
            // pending entries
            assert forall|k: int| 0 <= k < stack@.len() implies g.inside(#[trigger] stack@[k].0 as int, stack@[k].1 as int)
                && lab(l1, g.width, stack@[k].0 as int, stack@[k].1 as int) == top by {
                if k < s0.len() {
                    assert(stack@[k] == s0[k]);
                    lemma_lab_update(g, l0, nx as int, ny as int, top, s0[k].0 as int, s0[k].1 as int);
                } else {
                    lemma_lab_update(g, l0, nx as int, ny as int, top, nx as int, ny as int);
                }
            }
            lemma_lab_update(g, l0, nx as int, ny as int, top, nx as int, ny as int);
        }
    } else {
        proof {
            if is_set(g, nx as int, ny as int) {
                let l = lab(l0, g.width, nx as int, ny as int);
                assert(l != 0);
                assert(is_set(g, c.0, c.1));
                if !on_stack(s0, nx as int, ny as int) {
                    assert(closed_at(g, l0, nx as int, ny as int));
                    assert(agrees(g, l0, nx as int, ny as int, c.0, c.1));
                } else {
                    let k = choose|k: int| 0 <= k < s0.len() && #[trigger] s0[k] == (nx as u32, ny as u32);
                    assert(s0[k].0 == nx && s0[k].1 == ny);
                }
            }
        }
    }
}


/// A pixel that is never on the grid, used when no pixel is exempt from closure.
pub open spec fn nowhere() -> (int, int) {
    (-1, -1)
}

/// Labels, with `top`, the blob of set pixels around the unlabelled set seed
/// `(sx, sy)`; returns the blob's size.
fn flood(
    mask: &GrayGrid,
    labels: &mut Vec<u64>,
    sx: u32,
    sy: u32,
    top: u64,
    Ghost(seeds): Ghost<Seq<(int, int)>>,
) -> (area: u32)
    requires
        mask@.wf(),
        mask@.width * mask@.height <= u32::MAX,
        top >= 1,
        top < u64::MAX,
        is_set(mask@, sx as int, sy as int),
        lab(old(labels)@, mask@.width, sx as int, sy as int) == 0,
        seeds[top as int] == (sx as int, sy as int),
        labels_sound(mask@, old(labels)@, top, seeds),
        labels_closed(mask@, old(labels)@, Seq::empty(), nowhere()),
        count_label(old(labels)@, mask@.width * mask@.height, top) == 0,
    ensures
        labels_sound(mask@, final(labels)@, top, seeds),
        labels_closed(mask@, final(labels)@, Seq::empty(), nowhere()),
        area == count_label(final(labels)@, mask@.width * mask@.height, top),
        final(labels)@.len() == old(labels)@.len(),
        forall|i: int|
            0 <= i < old(labels)@.len() ==> #[trigger] final(labels)@[i] == old(labels)@[i] || (old(labels)@[i]
                == 0 && final(labels)@[i] == top),
        lab(final(labels)@, mask@.width, sx as int, sy as int) == top,
{
    let ghost g = mask@;
    let ghost n = g.width * g.height;
    let ghost l0 = labels@;
    let w = mask.width();
    proof {
        lemma_index(g.width, g.height, sx as int, sy as int);
    }
    let nlab = labels.len();
    assert((sy as int) * (w as int) + (sx as int) < nlab as int);
    let sidx = sy as usize * w as usize + sx as usize;
    labels.set(sidx, top);
    let mut stack: Vec<(u32, u32)> = Vec::new();
    stack.push((sx, sy));
    proof {
        let l1 = labels@;
        let seed = (sx as int, sy as int);
        lemma_connected_refl(g, seed);
        assert forall|x: int, y: int| g.inside(x, y) implies {
            let l = #[trigger] lab(l1, g.width, x, y);
            l <= top && (l != 0 ==> is_set(g, x, y) && connected(g, seeds[l as int], (x, y)))
        } by {
            lemma_lab_update(g, l0, sx as int, sy as int, top, x, y);
        }
        assert forall|x: int, y: int|
            g.inside(x, y) && lab(l1, g.width, x, y) != 0 && !on_stack(stack@, x, y) && (x, y) != nowhere()
                implies #[trigger] closed_at(g, l1, x, y) by {
            lemma_lab_update(g, l0, sx as int, sy as int, top, x, y);
            if (x, y) == seed {
                assert(stack@[0] == (x as u32, y as u32));
            } else {
                assert(!on_stack(Seq::<(u32, u32)>::empty(), x, y));
                assert(closed_at(g, l0, x, y));
                lemma_closed_after_label(g, l0, sx as int, sy as int, top, x, y);
            }
        }
        assert forall|k: int| 0 <= k < stack@.len() implies g.inside(#[trigger] stack@[k].0 as int, stack@[k].1 as int)
            && lab(l1, g.width, stack@[k].0 as int, stack@[k].1 as int) == top by {
            lemma_lab_update(g, l0, sx as int, sy as int, top, sx as int, sy as int);
        }
        lemma_visit_counts(n, l0, l1, sy * g.width + sx, top);
        lemma_lab_update(g, l0, sx as int, sy as int, top, sx as int, sy as int);
        assert forall|i: int| 0 <= i < l0.len() implies #[trigger] l1[i] == l0[i] || (l0[i] == 0 && l1[i] == top) by {
            if i == sy * g.width + sx {
                assert(l0[i] == lab(l0, g.width, sx as int, sy as int));
            }
        }
        assert(flood_state(g, l1, stack@, top, seeds, l0, sx as int, sy as int, 0));
    }
    let mut area: u32 = 0;
    while stack.len() > 0
        invariant
            g == mask@,
            g.wf(),
            n == g.width * g.height,
            n <= u32::MAX,
            top >= 1,
            l0.len() == n,
            flood_state(g, labels@, stack@, top, seeds, l0, sx as int, sy as int, area as int),
        decreases 2 * count_label(labels@, n, 0u64) + stack@.len(),
    {
        expand_next(mask, labels, &mut stack, &mut area, top, Ghost(seeds), Ghost(l0), Ghost((sx as int, sy as int)));
        proof {
            lemma_count_label_bound(labels@, n, 0u64);
        }
    }
    proof {
        assert forall|x: int, y: int|
            g.inside(x, y) && lab(labels@, g.width, x, y) != 0 && !on_stack(Seq::<(u32, u32)>::empty(), x, y) && (x, y)
                != nowhere() implies #[trigger] closed_at(g, labels@, x, y) by {
            assert(!on_stack(stack@, x, y));
        }
    }
    area
}


/// One neighbour visit keeps "labelled count minus pending" and does not
/// increase "twice the unlabelled count plus pending"; it only turns
/// unlabelled entries into `top`.
proof fn lemma_visit_step(
    g: GridView,
    n: int,
    la: Seq<u64>,
    sa: Seq<(u32, u32)>,
    lb: Seq<u64>,
    sb: Seq<(u32, u32)>,
    top: u64,
)
    requires
        g.wf(),
        n == g.width * g.height,
        la.len() == n,
        top != 0,
        (lb == la && sb == sa) || exists|x: int, y: int|
            #![trigger lab(la, g.width, x, y)]
            g.inside(x, y) && lab(la, g.width, x, y) == 0 && lb == la.update(y * g.width + x, top) && sb == sa.push(
                (x as u32, y as u32),
            ),
    ensures
        lb.len() == n,
        count_label(lb, n, top) - sb.len() == count_label(la, n, top) - sa.len(),
        2 * count_label(lb, n, 0u64) + sb.len() <= 2 * count_label(la, n, 0u64) + sa.len(),
        forall|i: int| 0 <= i < n ==> #[trigger] lb[i] == la[i] || (la[i] == 0 && lb[i] == top),
{
    if !(lb == la && sb == sa) {
        let (x, y) = choose|x: int, y: int|
            #![trigger lab(la, g.width, x, y)]
            g.inside(x, y) && lab(la, g.width, x, y) == 0 && lb == la.update(y * g.width + x, top) && sb == sa.push(
                (x as u32, y as u32),
            );
        lemma_index(g.width, g.height, x, y);
        lemma_visit_counts(n, la, lb, y * g.width + x, top);
    }
}

/// A pixel labelled `top` keeps that label when only unlabelled entries change.
proof fn lemma_persist(g: GridView, la: Seq<u64>, lb: Seq<u64>, top: u64, x: int, y: int)
    requires
        g.wf(),
        la.len() == g.width * g.height,
        forall|i: int| 0 <= i < la.len() ==> #[trigger] lb[i] == la[i] || (la[i] == 0 && lb[i] == top),
    ensures
        g.inside(x, y) && lab(la, g.width, x, y) == top ==> lab(lb, g.width, x, y) == top,
        g.inside(x, y) && lab(la, g.width, x, y) != 0 ==> lab(lb, g.width, x, y) == lab(la, g.width, x, y),
{
    if g.inside(x, y) {
        lemma_index(g.width, g.height, x, y);
        assert(lb[y * g.width + x] == la[y * g.width + x] || (la[y * g.width + x] == 0 && lb[y * g.width + x] == top));
    }
}


/// The facts a flood fill maintains between expansions.
pub open spec fn flood_state(
    g: GridView,
    labels: Seq<u64>,
    stack: Seq<(u32, u32)>,
    top: u64,
    seeds: Seq<(int, int)>,
    l0: Seq<u64>,
    sx: int,
    sy: int,
    area: int,
) -> bool {
    &&& labels.len() == g.width * g.height
    &&& labels_sound(g, labels, top, seeds)
    &&& labels_closed(g, labels, stack, nowhere())
    &&& stack_ok(g, labels, top, stack)
    &&& area + stack.len() == count_label(labels, g.width * g.height, top)
    &&& forall|i: int| 0 <= i < l0.len() ==> #[trigger] labels[i] == l0[i] || (l0[i] == 0 && labels[i] == top)
    &&& g.inside(sx, sy)
    &&& lab(labels, g.width, sx, sy) == top
}

/// Expands the most recently queued pixel: labels and queues its unlabelled
/// set neighbours.
#[verifier::rlimit(60)]
fn expand_next(
    mask: &GrayGrid,
    labels: &mut Vec<u64>,
    stack: &mut Vec<(u32, u32)>,
    area: &mut u32,
    top: u64,
    Ghost(seeds): Ghost<Seq<(int, int)>>,
    Ghost(l0): Ghost<Seq<u64>>,
    Ghost(seed): Ghost<(int, int)>,
)
    requires
        mask@.wf(),
        mask@.width * mask@.height <= u32::MAX,
        top >= 1,
        l0.len() == mask@.width * mask@.height,
        old(stack)@.len() > 0,
        flood_state(mask@, old(labels)@, old(stack)@, top, seeds, l0, seed.0, seed.1, *old(area) as int),
    ensures
        flood_state(mask@, final(labels)@, final(stack)@, top, seeds, l0, seed.0, seed.1, *final(area) as int),
        2 * count_label(final(labels)@, mask@.width * mask@.height, 0u64) + final(stack)@.len() < 2
            * count_label(old(labels)@, mask@.width * mask@.height, 0u64) + old(stack)@.len(),
{
    let ghost g = mask@;
    let ghost n = g.width * g.height;
    let ghost sx = seed.0;
    let ghost sy = seed.1;
    let w = mask.width();
    let h = mask.height();
    let ghost s_before = stack@;
    let ghost l_before = labels@;
    let (cx, cy) = stack.pop().unwrap();
    let ghost c = (cx as int, cy as int);
    proof {
        assert(s_before[s_before.len() - 1] == (cx, cy));
        lemma_count_label_bound(labels@, n, top);
        assert forall|x: int, y: int|
            g.inside(x, y) && lab(labels@, g.width, x, y) != 0 && !on_stack(stack@, x, y) && (x, y) != c
                implies #[trigger] closed_at(g, labels@, x, y) by {
            if on_stack(s_before, x, y) {
                let k = choose|k: int| 0 <= k < s_before.len() && #[trigger] s_before[k] == (x as u32, y as u32);
                if k < stack@.len() {
                    assert(stack@[k] == s_before[k]);
                } else {
                    assert(x == cx && y == cy);
                }
            }
        }
        assert forall|k: int| 0 <= k < stack@.len() implies g.inside(#[trigger] stack@[k].0 as int, stack@[k].1 as int)
            && lab(labels@, g.width, stack@[k].0 as int, stack@[k].1 as int) == top by {
            assert(stack@[k] == s_before[k]);
        }
        assert(g.inside(cx as int, cy as int));
    }
    *area = *area + 1;
    let ghost l_mid = labels@;
    let ghost st_mid = stack@;
    if cx > 0 {
        visit(mask, labels, stack, cx - 1, cy, top, Ghost(seeds), Ghost(c));
    }
    let ghost l_a = labels@;
    let ghost st_a = stack@;
    proof {
        lemma_visit_step(g, n, l_mid, st_mid, l_a, st_a, top);
        lemma_persist(g, l_mid, l_a, top, cx as int, cy as int);
    }
    if cx + 1 < w {
        visit(mask, labels, stack, cx + 1, cy, top, Ghost(seeds), Ghost(c));
    }
    let ghost l_b = labels@;
    let ghost st_b = stack@;
    proof {
        lemma_visit_step(g, n, l_a, st_a, l_b, st_b, top);
        lemma_persist(g, l_a, l_b, top, cx as int, cy as int);
    }
    if cy > 0 {
        visit(mask, labels, stack, cx, cy - 1, top, Ghost(seeds), Ghost(c));
    }
    let ghost l_c = labels@;
    let ghost st_c = stack@;
    proof {
        lemma_visit_step(g, n, l_b, st_b, l_c, st_c, top);
        lemma_persist(g, l_b, l_c, top, cx as int, cy as int);
    }
    if cy + 1 < h {
        visit(mask, labels, stack, cx, cy + 1, top, Ghost(seeds), Ghost(c));
    }
    proof {
        let l_d = labels@;
        lemma_visit_step(g, n, l_c, st_c, l_d, stack@, top);
        // the expanded pixel now has all its set neighbours in its label
        lemma_persist(g, l_mid, l_a, top, cx as int, cy as int);
        lemma_persist(g, l_a, l_b, top, cx as int, cy as int);
        lemma_persist(g, l_b, l_c, top, cx as int, cy as int);
        lemma_persist(g, l_c, l_d, top, cx as int, cy as int);
        if is_set(g, cx as int - 1, cy as int) {
            lemma_persist(g, l_a, l_b, top, cx as int - 1, cy as int);
            lemma_persist(g, l_b, l_c, top, cx as int - 1, cy as int);
            lemma_persist(g, l_c, l_d, top, cx as int - 1, cy as int);
        }
        if is_set(g, cx as int + 1, cy as int) {
            lemma_persist(g, l_b, l_c, top, cx as int + 1, cy as int);
            lemma_persist(g, l_c, l_d, top, cx as int + 1, cy as int);
        }
        if is_set(g, cx as int, cy as int - 1) {
            lemma_persist(g, l_c, l_d, top, cx as int, cy as int - 1);
        }
        assert(closed_at(g, l_d, cx as int, cy as int));
        assert forall|x: int, y: int|
            g.inside(x, y) && lab(l_d, g.width, x, y) != 0 && !on_stack(stack@, x, y) && (x, y) != nowhere()
                implies #[trigger] closed_at(g, l_d, x, y) by {
            if (x, y) != c {
                assert(closed_at(g, l_d, x, y));
            }
        }
        lemma_persist(g, l_before, l_mid, top, sx, sy);
        lemma_persist(g, l_mid, l_a, top, sx, sy);
        lemma_persist(g, l_a, l_b, top, sx, sy);
        lemma_persist(g, l_b, l_c, top, sx, sy);
        lemma_persist(g, l_c, l_d, top, sx, sy);
        assert forall|i: int| 0 <= i < l0.len() implies #[trigger] l_d[i] == l0[i] || (l0[i] == 0 && l_d[i] == top) by {
            assert(l_before[i] == l0[i] || (l0[i] == 0 && l_before[i] == top));
            assert(l_a[i] == l_mid[i] || (l_mid[i] == 0 && l_a[i] == top));
            assert(l_b[i] == l_a[i] || (l_a[i] == 0 && l_b[i] == top));
            assert(l_c[i] == l_b[i] || (l_b[i] == 0 && l_c[i] == top));
            assert(l_d[i] == l_c[i] || (l_c[i] == 0 && l_d[i] == top));
        }
    }
}



/// Entries that only ever change from 0 to `top` leave the count of any
/// other non-zero label as it was.
proof fn lemma_count_keep(a: Seq<u64>, b: Seq<u64>, n: int, top: u64, v: u64)
    requires
        forall|i: int| 0 <= i < n ==> #[trigger] b[i] == a[i] || (a[i] == 0 && b[i] == top),
        v != 0,
        v != top,
    ensures
        count_label(b, n, v) == count_label(a, n, v),
    decreases n,
{
    if n > 0 {
        lemma_count_keep(a, b, n - 1, top, v);
        assert(b[n - 1] == a[n - 1] || (a[n - 1] == 0 && b[n - 1] == top));
    }
}

/// A label that occurs nowhere in the first `n` entries counts zero.
proof fn lemma_count_absent(a: Seq<u64>, n: int, v: u64)
    requires
        forall|i: int| 0 <= i < n ==> #[trigger] a[i] != v,
    ensures
        count_label(a, n, v) == 0,
    decreases n,
{
    if n > 0 {
        lemma_count_absent(a, n - 1, v);
        assert(a[n - 1] != v);
    }
}

/// Counting reachable pixels is counting a label that marks exactly them.
proof fn lemma_reach_eq(g: GridView, p: (int, int), labels: Seq<u64>, v: u64, n: int)
    requires
        forall|i: int| 0 <= i < n ==> connected(g, p, #[trigger] pos(g, i)) == (labels[i] == v),
    ensures
        reach_count(g, p, n) == count_label(labels, n, v),
    decreases n,
{
    if n > 0 {
        lemma_reach_eq(g, p, labels, v, n - 1);
        assert(connected(g, p, pos(g, n - 1)) == (labels[n - 1] == v));
    }
}

/// With every labelled pixel closed, a walk keeps the label it starts on.
proof fn lemma_path_label(g: GridView, labels: Seq<u64>, path: Seq<(int, int)>)
    requires
        g.wf(),
        labels.len() == g.width * g.height,
        is_path(g, path),
        labels_closed(g, labels, Seq::empty(), nowhere()),
        lab(labels, g.width, path[0].0, path[0].1) != 0,
    ensures
        lab(labels, g.width, path.last().0, path.last().1) == lab(labels, g.width, path[0].0, path[0].1),
    decreases path.len(),
{
    if path.len() > 1 {
        let pre = path.drop_last();
        assert forall|k: int| 0 <= k < pre.len() implies is_set(g, #[trigger] pre[k].0, pre[k].1) by {
            assert(pre[k] == path[k]);
        }
        assert forall|k: int| 0 <= k < pre.len() - 1 implies adjacent(#[trigger] pre[k], pre[k + 1]) by {
            assert(pre[k] == path[k] && pre[k + 1] == path[k + 1]);
        }
        assert(is_path(g, pre));
        lemma_path_label(g, labels, pre);
        let a = path[path.len() - 2];
        let b = path.last();
        assert(pre.last() == a);
        assert(pre[0] == path[0]);
        assert(is_set(g, a.0, a.1));
        assert(adjacent(path[path.len() - 2], path[path.len() - 1]));
        assert(is_set(g, path[path.len() - 1].0, path[path.len() - 1].1));
        assert(!on_stack(Seq::<(u32, u32)>::empty(), a.0, a.1));
        assert(closed_at(g, labels, a.0, a.1));
    }
}

/// Once labelling is sound and closed, the blob around a labelled pixel is
/// exactly the pixels carrying its label.
proof fn lemma_component_count(g: GridView, labels: Seq<u64>, top: u64, seeds: Seq<(int, int)>, x: int, y: int)
    requires
        g.wf(),
        labels_sound(g, labels, top, seeds),
        labels_closed(g, labels, Seq::empty(), nowhere()),
        g.inside(x, y),
        lab(labels, g.width, x, y) != 0,
    ensures
        component_size(g, x, y) == count_label(labels, g.width * g.height, lab(labels, g.width, x, y)),
{
    let l = lab(labels, g.width, x, y);
    let n = g.width * g.height;
    let p = (x, y);
    assert(is_set(g, x, y) && connected(g, seeds[l as int], p));
    lemma_connected_sym(g, seeds[l as int], p);
    assert forall|i: int| 0 <= i < n implies connected(g, p, #[trigger] pos(g, i)) == (labels[i] == l) by {
        lemma_index_inv(g.width, g.height, i);
        let q = pos(g, i);
        assert(lab(labels, g.width, q.0, q.1) == labels[i]);
        if labels[i] == l {
            assert(is_set(g, q.0, q.1) && connected(g, seeds[l as int], q));
            lemma_connected_trans(g, p, seeds[l as int], q);
        }
        if connected(g, p, q) {
            let path = choose|path: Seq<(int, int)>| #[trigger] is_path(g, path) && path[0] == p && path.last() == q;
            lemma_path_label(g, labels, path);
        }
    }
    lemma_reach_eq(g, p, labels, l, n);
}

/// What the labelling scan has established once it has passed index `i`.
pub open spec fn scan_state(
    g: GridView,
    labels: Seq<u64>,
    areas: Seq<u32>,
    seeds: Seq<(int, int)>,
    next: int,
    i: int,
) -> bool {
    &&& labels.len() == g.width * g.height
    &&& 1 <= next <= i + 1
    &&& labels_sound(g, labels, (next - 1) as u64, seeds)
    &&& labels_closed(g, labels, Seq::empty(), nowhere())
    &&& areas.len() == next
    &&& forall|l: int| 1 <= l < next ==> #[trigger] areas[l] == count_label(labels, g.width * g.height, l as u64)
    &&& forall|j: int| 0 <= j < g.width * g.height ==> #[trigger] labels[j] < next
    &&& forall|j: int| 0 <= j < i ==> #[trigger] labels[j] != 0 || !is_set(g, pos(g, j).0, pos(g, j).1)
}

/// After the scan, whether pixel `j` is cleared is read off its label's area.
proof fn lemma_decision(
    g: GridView,
    labels: Seq<u64>,
    areas: Seq<u32>,
    seeds: Seq<(int, int)>,
    next: int,
    min_area: int,
    j: int,
)
    requires
        g.wf(),
        scan_state(g, labels, areas, seeds, next, g.width * g.height),
        0 <= j < g.width * g.height,
    ensures
        blobs_removed_spec(g, min_area).data[j] == (if labels[j] > 0 && areas[labels[j] as int] < min_area {
            0u8
        } else {
            g.data[j]
        }),
{
    let w = g.width;
    if w == 0 {
        assert(w * g.height == 0) by (nonlinear_arith)
            requires
                w == 0,
        ;
    }
    lemma_index_inv(w, g.height, j);
    let x = j % w;
    let y = j / w;
    assert(lab(labels, w, x, y) == labels[j]);
    assert(g.at(x, y) == g.data[j]);
    let top = (next - 1) as u64;
    if labels[j] != 0 {
        assert(labels[j] <= top);
        assert(is_set(g, x, y));
        lemma_component_count(g, labels, top, seeds, x, y);
    } else {
        assert(labels[j] != 0 || !is_set(g, pos(g, j).0, pos(g, j).1));
    }
}

/// Clears every 4-connected blob of set pixels that has fewer than
/// `min_area` pixels; larger blobs and unset pixels stay as they are.
pub fn remove_small_blobs(mask: &mut GrayGrid, min_area: u32)
    requires
        old(mask)@.wf(),
        old(mask)@.width * old(mask)@.height <= u32::MAX,
    ensures
        final(mask)@ == blobs_removed_spec(old(mask)@, min_area as int),
{
    let ghost g = mask@;
    let w = mask.width();
    let h = mask.height();
    let n: u32 = w * h;
    let mut labels: Vec<u64> = Vec::new();
    let mut k: u32 = 0;
    while k < n
        invariant
            k <= n,
            labels@.len() == k,
            forall|j: int| 0 <= j < k ==> #[trigger] labels@[j] == 0,
        decreases n - k,
    {
        labels.push(0);
        k = k + 1;
    }
    let mut areas: Vec<u32> = Vec::new();
    areas.push(0);
    let mut next: u64 = 1;
    let ghost mut seeds: Seq<(int, int)> = seq![nowhere()];
    proof {
        assert forall|x: int, y: int| g.inside(x, y) implies {
            let l = #[trigger] lab(labels@, g.width, x, y);
            l <= 0 && (l != 0 ==> is_set(g, x, y) && connected(g, seeds[l as int], (x, y)))
        } by {
            lemma_index(g.width, g.height, x, y);
        }
        assert forall|x: int, y: int|
            g.inside(x, y) && lab(labels@, g.width, x, y) != 0 && !on_stack(Seq::<(u32, u32)>::empty(), x, y) && (x, y)
                != nowhere() implies #[trigger] closed_at(g, labels@, x, y) by {
            lemma_index(g.width, g.height, x, y);
        }
    }
    let mut i: u32 = 0;
    while i < n
        invariant
            g == mask@,
            g.wf(),
            n == g.width * g.height,
            w == g.width,
            h == g.height,
            i <= n,
            next == next as int,
            scan_state(g, labels@, areas@, seeds, next as int, i as int),
        decreases n - i,
    {
        assert(w > 0) by (nonlinear_arith)
            requires
                i < n,
                n == w * h,
        ;
        let x = i % w;
        let y = i / w;
        proof {
            lemma_index_inv(w as int, h as int, i as int);
            assert(lab(labels@, g.width, x as int, y as int) == labels@[i as int]);
        }
        if labels[i as usize] == 0 && mask.get(x, y) > 0 {
            let ghost l0 = labels@;
            let ghost a0 = areas@;
            let ghost seeds2 = seeds.push((x as int, y as int));
            proof {
                assert forall|px: int, py: int| g.inside(px, py) implies {
                    let l = #[trigger] lab(l0, g.width, px, py);
                    l <= next && (l != 0 ==> is_set(g, px, py) && connected(g, seeds2[l as int], (px, py)))
                } by {
                    let l = lab(l0, g.width, px, py);
                    if l != 0 {
                        assert(seeds2[l as int] == seeds[l as int]);
                    }
                }
                lemma_count_absent(l0, n as int, next);
            }
            let area = flood(mask, &mut labels, x, y, next, Ghost(seeds2));
            areas.push(area);
            proof {
                let l1 = labels@;
                assert forall|l: int| 1 <= l < next + 1 implies #[trigger] areas@[l] == count_label(
                    l1,
                    g.width * g.height,
                    l as u64,
                ) by {
                    if l < next {
                        assert(areas@[l] == a0[l]);
                        lemma_count_keep(l0, l1, n as int, next, l as u64);
                    }
                }
                assert forall|j: int| 0 <= j < g.width * g.height implies #[trigger] l1[j] < next + 1 by {
                    assert(l0[j] < next);
                }
                assert forall|j: int| 0 <= j < i + 1 implies #[trigger] l1[j] != 0 || !is_set(
                    g,
                    pos(g, j).0,
                    pos(g, j).1,
                ) by {
                    if j < i {
                        assert(l0[j] != 0 || !is_set(g, pos(g, j).0, pos(g, j).1));
                    }
                }
                seeds = seeds2;
            }
            next = next + 1;
        }
        i = i + 1;
    }
    let ghost target = blobs_removed_spec(g, min_area as int);
    proof {
        assert forall|j: int| 0 <= j < n implies #[trigger] target.data[j] == (if labels@[j] > 0 && areas@[labels@[j] as int]
            < min_area {
            0u8
        } else {
            g.data[j]
        }) by {
            lemma_decision(g, labels@, areas@, seeds, next as int, min_area as int, j);
        }
    }
    let mut i: u32 = 0;
    while i < n
        invariant
            g.wf(),
            n == g.width * g.height,
            w == g.width,
            h == g.height,
            i <= n,
            mask@.wf(),
            mask@.width == g.width,
            mask@.height == g.height,
            labels@.len() == n,
            areas@.len() == next,
            next <= n + 1,
            forall|j: int| 0 <= j < n ==> #[trigger] labels@[j] < next,
            forall|j: int| 0 <= j < n ==> #[trigger] target.data[j] == (if labels@[j] > 0 && areas@[labels@[j] as int]
                < min_area {
                0u8
            } else {
                g.data[j]
            }),
            forall|j: int| 0 <= j < i ==> #[trigger] mask@.data[j] == target.data[j],
            forall|j: int| i <= j < n ==> #[trigger] mask@.data[j] == g.data[j],
        decreases n - i,
    {
        let lbl = labels[i as usize];
        assert(lbl < next);
        if lbl > 0 && areas[lbl as usize] < min_area {
            assert(w > 0) by (nonlinear_arith)
                requires
                    i < n,
                    n == w * h,
            ;
            let x = i % w;
            let y = i / w;
            proof {
                lemma_index_inv(w as int, h as int, i as int);
            }
            mask.put(x, y, 0);
        }
        i = i + 1;
    }
    proof {
        assert(mask@.data =~= target.data);
    }
}

/// Counts of reachable pixels agree when reachability does.
proof fn lemma_reach_ext(g1: GridView, p1: (int, int), g2: GridView, p2: (int, int), n: int)
    requires
        forall|i: int| 0 <= i < n ==> connected(g1, p1, #[trigger] pos(g1, i)) == connected(g2, p2, pos(g2, i)),
    ensures
        reach_count(g1, p1, n) == reach_count(g2, p2, n),
    decreases n,
{
    if n > 0 {
        lemma_reach_ext(g1, p1, g2, p2, n - 1);
        assert(connected(g1, p1, pos(g1, n - 1)) == connected(g2, p2, pos(g2, n - 1)));
    }
}

/// Every pixel of a walk is reachable from its start.
proof fn lemma_path_prefix(g: GridView, path: Seq<(int, int)>, k: int)
    requires
        is_path(g, path),
        0 <= k < path.len(),
    ensures
        connected(g, path[0], path[k]),
{
    let pre = path.take(k + 1);
    assert forall|j: int| 0 <= j < pre.len() implies is_set(g, #[trigger] pre[j].0, pre[j].1) by {
        assert(pre[j] == path[j]);
    }
    assert forall|j: int| 0 <= j < pre.len() - 1 implies adjacent(#[trigger] pre[j], pre[j + 1]) by {
        assert(pre[j] == path[j] && pre[j + 1] == path[j + 1]);
    }
    assert(is_path(g, pre));
    assert(pre[0] == path[0] && pre.last() == path[k]);
}

/// Pixels of one blob see the same blob size.
proof fn lemma_same_component(g: GridView, p: (int, int), q: (int, int))
    requires
        connected(g, p, q),
    ensures
        component_size(g, p.0, p.1) == component_size(g, q.0, q.1),
{
    lemma_connected_sym(g, p, q);
    assert forall|i: int| 0 <= i < g.width * g.height implies connected(g, p, #[trigger] pos(g, i)) == connected(
        g,
        q,
        pos(g, i),
    ) by {
        let z = pos(g, i);
        if connected(g, p, z) {
            lemma_connected_trans(g, q, p, z);
        }
        if connected(g, q, z) {
            lemma_connected_trans(g, p, q, z);
        }
    }
    lemma_reach_ext(g, p, g, q, g.width * g.height);
}

/// Removing small blobs twice removes nothing more: what is left consists of
/// whole blobs of the original mask, each at least `min_area` pixels.
pub proof fn lemma_blob_removal_idempotent(g: GridView, min_area: int)
    requires
        g.wf(),
    ensures
        blobs_removed_spec(blobs_removed_spec(g, min_area), min_area) == blobs_removed_spec(g, min_area),
{
    let r = blobs_removed_spec(g, min_area);
    let rr = blobs_removed_spec(r, min_area);
    assert(g.width * g.height >= 0) by (nonlinear_arith)
        requires
            g.width >= 0,
            g.height >= 0,
    ;
    assert forall|x: int, y: int| r.inside(x, y) implies #[trigger] r.at(x, y) == (if is_set(g, x, y)
        && component_size(g, x, y) < min_area {
        0u8
    } else {
        g.at(x, y)
    }) by {
        lemma_grid_from_fn_at(
            g.width,
            g.height,
            |a: int, b: int|
                if is_set(g, a, b) && component_size(g, a, b) < min_area {
                    0u8
                } else {
                    g.at(a, b)
                },
            x,
            y,
        );
    }
    assert forall|x: int, y: int| rr.inside(x, y) implies #[trigger] rr.at(x, y) == r.at(x, y) by {
        lemma_grid_from_fn_at(
            r.width,
            r.height,
            |a: int, b: int|
                if is_set(r, a, b) && component_size(r, a, b) < min_area {
                    0u8
                } else {
                    r.at(a, b)
                },
            x,
            y,
        );
        if is_set(r, x, y) {
            let p = (x, y);
            assert(is_set(g, x, y) && component_size(g, x, y) >= min_area);
            assert forall|i: int| 0 <= i < g.width * g.height implies connected(r, p, #[trigger] pos(r, i))
                == connected(g, p, pos(g, i)) by {
                let z = pos(g, i);
                if connected(r, p, z) {
                    let path = choose|path: Seq<(int, int)>| #[trigger] is_path(r, path) && path[0] == p && path.last() == z;
                    assert forall|k: int| 0 <= k < path.len() implies is_set(g, #[trigger] path[k].0, path[k].1) by {
                        assert(is_set(r, path[k].0, path[k].1));
                    }
                    assert(is_path(g, path));
                }
                if connected(g, p, z) {
                    let path = choose|path: Seq<(int, int)>| #[trigger] is_path(g, path) && path[0] == p && path.last() == z;
                    assert forall|k: int| 0 <= k < path.len() implies is_set(r, #[trigger] path[k].0, path[k].1) by {
                        let q = path[k];
                        assert(is_set(g, q.0, q.1));
                        lemma_path_prefix(g, path, k);
                        lemma_same_component(g, p, q);
                        assert(r.at(q.0, q.1) == g.at(q.0, q.1));
                    }
                    assert(is_path(r, path));
                }
            }
            lemma_reach_ext(r, p, g, p, g.width * g.height);
        }
    }
    lemma_grid_ext(rr, r);
}

/// Counts of reachable pixels grow when reachability does.
proof fn lemma_reach_mono(g1: GridView, p1: (int, int), g2: GridView, p2: (int, int), n: int)
    requires
        forall|i: int| 0 <= i < n ==> connected(g1, p1, #[trigger] pos(g1, i)) ==> connected(g2, p2, pos(g2, i)),
    ensures
        reach_count(g1, p1, n) <= reach_count(g2, p2, n),
    decreases n,
{
    if n > 0 {
        lemma_reach_mono(g1, p1, g2, p2, n - 1);
        assert(connected(g1, p1, pos(g1, n - 1)) ==> connected(g2, p2, pos(g2, n - 1)));
    }
}

/// Setting more pixels never shrinks a blob: when every set pixel of `g1` is
/// set in `g2` (same shape), the blob of `g2` around a pixel is at least as
/// large as its blob in `g1`.
pub proof fn lemma_component_grows(g1: GridView, g2: GridView, x: int, y: int)
    requires
        g1.width == g2.width,
        g1.height == g2.height,
        forall|a: int, b: int| is_set(g1, a, b) ==> #[trigger] is_set(g2, a, b),
    ensures
        component_size(g1, x, y) <= component_size(g2, x, y),
{
    let p = (x, y);
    assert forall|i: int| 0 <= i < g1.width * g1.height implies connected(g1, p, #[trigger] pos(g1, i))
        ==> connected(g2, p, pos(g2, i)) by {
        let z = pos(g1, i);
        if connected(g1, p, z) {
            let path = choose|path: Seq<(int, int)>| #[trigger] is_path(g1, path) && path[0] == p && path.last() == z;
            assert forall|k: int| 0 <= k < path.len() implies is_set(g2, #[trigger] path[k].0, path[k].1) by {
                assert(is_set(g1, path[k].0, path[k].1));
            }
            assert(is_path(g2, path));
        }
    }
    lemma_reach_mono(g1, p, g2, p, g1.width * g1.height);
}

} // verus!
