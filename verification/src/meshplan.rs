//! Mesh topology for the extruded scene: which meshes a floorplan yields,
//! and the triangle indices of wall boxes, opening frames and floor slabs.
use vstd::prelude::*;
use crate::error::OpenSpaceError;
use crate::text::concat_str;

verus! {

/// What a mesh represents.
#[derive(Debug, Clone, Copy, PartialEq, Eq, Structural)]
pub enum MeshKind {
    Wall,
    Floor,
    Ceiling,
    OpeningFrame,
}

/// Name of a room's slab mesh: "floor-" for a floor and "ceiling-" for any
/// other kind, followed by the room's name.
pub fn slab_mesh_name(kind: MeshKind, room: &str) -> (r: String)
    ensures
        r@ == (if kind == MeshKind::Floor {
            "floor-"@
        } else {
            "ceiling-"@
        }) + room@,
{
    match kind {
        MeshKind::Floor => concat_str("floor-", room),
        _ => concat_str("ceiling-", room),
    }
}

/// Options for extrusion; the default is an open-top dollhouse view.
#[derive(Debug, Clone, Copy, PartialEq, Eq, Structural)]
pub struct ExtrudeOptions {
    pub include_ceiling: bool,
    pub cap_wall_tops: bool,
}

impl Default for ExtrudeOptions {
    fn default() -> (r: Self)
        ensures
            r == (ExtrudeOptions { include_ceiling: false, cap_wall_tops: false }),
    {
        ExtrudeOptions { include_ceiling: false, cap_wall_tops: false }
    }
}

/// Position of vertex `k % 6` of a quad's two triangles (a, b, c), (a, c, d).
pub open spec fn quad_corner(k: int) -> int {
    if k == 0 {
        0
    } else if k == 1 {
        1
    } else if k == 2 {
        2
    } else if k == 3 {
        0
    } else if k == 4 {
        2
    } else {
        3
    }
}

/// Indices of `quads` quads of four consecutive vertices each, every quad
/// split into triangles (0, 1, 2) and (0, 2, 3).
pub open spec fn quad_indices_spec(quads: int) -> Seq<u32> {
    Seq::new((6 * quads) as nat, |k: int| (4 * (k / 6) + quad_corner(k % 6)) as u32)
}

/// Triangle indices for `quads` quads laid out four vertices apiece.
pub fn quad_indices(quads: u32) -> (r: Vec<u32>)
    requires
        4 * quads + 3 <= u32::MAX,
    ensures
        r@ == quad_indices_spec(quads as int),
{
    let mut r: Vec<u32> = Vec::new();
    let mut q: u32 = 0;
    while q < quads
        invariant
            q <= quads,
            4 * quads + 3 <= u32::MAX,
            r@ == quad_indices_spec(q as int),
        decreases quads - q,
    {
        let base = 4 * q;
        r.push(base);
        r.push(base + 1);
        r.push(base + 2);
        r.push(base);
        r.push(base + 2);
        r.push(base + 3);
        proof {
            assert forall|k: int| 0 <= k < 6 * (q as int + 1) implies #[trigger] r@[k] == quad_indices_spec(
                q as int + 1,
            )[k] by {
                if k >= 6 * q {
                    assert(k / 6 == q) by (nonlinear_arith)
                        requires
                            6 * q <= k < 6 * q + 6,
                    ;
                    assert(k % 6 == k - 6 * q) by (nonlinear_arith)
                        requires
                            6 * q <= k < 6 * q + 6,
                    ;
                } else {
                    assert(r@[k] == quad_indices_spec(q as int)[k]);
                }
            }
            assert(r@ =~= quad_indices_spec(q as int + 1));
        }
        q = q + 1;
    }
    r
}

/// Quads of a wall box: four sides, the top when capped, and the bottom.
pub open spec fn wall_quads(cap_top: bool) -> int {
    if cap_top {
        6
    } else {
        5
    }
}

/// Triangle indices of an extruded wall box.
pub fn wall_indices(cap_top: bool) -> (r: Vec<u32>)
    ensures
        r@ == quad_indices_spec(wall_quads(cap_top)),
{
    quad_indices(if cap_top {
        6
    } else {
        5
    })
}

/// Triangle indices of an opening frame: its four sides.
pub fn opening_indices() -> (r: Vec<u32>)
    ensures
        r@ == quad_indices_spec(4),
{
    quad_indices(4)
}

/// Fan triangulation of an `n`-gon from vertex 0: triangles (0, i, i+1) for
/// an upward-facing slab, (0, i+1, i) for a downward-facing one.
pub open spec fn fan_indices_spec(n: int, upward: bool) -> Seq<u32> {
    Seq::new(
        (if n >= 2 { 3 * (n - 2) } else { 0 }) as nat,
        |k: int|
            {
                let i = k / 3 + 1;
                let c = k % 3;
                (if c == 0 {
                    0
                } else if (c == 1) == upward {
                    i
                } else {
                    i + 1
                }) as u32
            },
    )
}

/// Fan triangulation of a polygon slab with `n` vertices.
pub fn fan_indices(n: u32, upward: bool) -> (r: Vec<u32>)
    requires
        n >= 1,
    ensures
        r@ == fan_indices_spec(n as int, upward),
{
    let mut r: Vec<u32> = Vec::new();
    let mut i: u32 = 1;
    while i < n - 1
        invariant
            n >= 1,
            1 <= i <= if n >= 2 { n - 1 } else { 1 },
            r@ == fan_indices_spec(i as int + 1, upward),
        decreases n - i,
    {
        if upward {
            r.push(0);
            r.push(i);
            r.push(i + 1);
        } else {
            r.push(0);
            r.push(i + 1);
            r.push(i);
        }
        proof {
            assert forall|k: int| 0 <= k < 3 * i implies #[trigger] r@[k] == fan_indices_spec(i as int + 2, upward)[k] by {
                if k >= 3 * (i - 1) {
                    assert(k / 3 == i - 1) by (nonlinear_arith)
                        requires
                            3 * (i - 1) <= k < 3 * i,
                    ;
                    assert(k % 3 == k - 3 * (i - 1)) by (nonlinear_arith)
                        requires
                            3 * (i - 1) <= k < 3 * i,
                    ;
                } else {
                    assert(r@[k] == fan_indices_spec(i as int + 1, upward)[k]);
                }
            }
            assert(r@ =~= fan_indices_spec(i as int + 2, upward));
        }
        i = i + 1;
    }
    proof {
        if n < 2 {
            assert(r@ =~= fan_indices_spec(n as int, upward));
        }
    }
    r
}

/// Every index of a quad strip addresses one of its `4 * quads` vertices, and
/// each triangle stays within one quad.
pub proof fn lemma_quad_indices_in_range(quads: int, k: int)
    requires
        0 <= quads,
        0 <= k < 6 * quads,
        4 * quads <= u32::MAX,
    ensures
        quad_indices_spec(quads)[k] < 4 * quads,
        quad_indices_spec(quads)[k] / 4 == k / 6,
{
    assert(0 <= k / 6 < quads && 0 <= k % 6 < 6) by (nonlinear_arith)
        requires
            0 <= k < 6 * quads,
    ;
    let v = 4 * (k / 6) + quad_corner(k % 6);
    assert(v < 4 * quads && v / 4 == k / 6) by (nonlinear_arith)
        requires
            v == 4 * (k / 6) + quad_corner(k % 6),
            0 <= quad_corner(k % 6) < 4,
            0 <= k / 6 < quads,
    ;
}

/// A fan over `n` vertices indexes only those vertices and yields `n - 2`
/// triangles, each with vertex 0 and two consecutive vertices.
pub proof fn lemma_fan_indices_in_range(n: int, upward: bool, k: int)
    requires
        n >= 2,
        n <= u32::MAX,
        0 <= k < 3 * (n - 2),
    ensures
        fan_indices_spec(n, upward).len() == 3 * (n - 2),
        fan_indices_spec(n, upward)[k] < n,
{
    assert(0 <= k / 3 < n - 2 && 0 <= k % 3 < 3) by (nonlinear_arith)
        requires
            0 <= k < 3 * (n - 2),
    ;
}


/// One mesh to build from the floorplan.
#[derive(Debug, Clone, Copy, PartialEq, Eq, Structural)]
pub enum MeshJob {
    /// The extruded box of a wall.
    Wall { wall: usize },
    /// The frame of an opening, placed on the wall it refers to.
    Opening { opening: usize, wall: usize },
    /// The floor slab of a room.
    Floor { room: usize },
    /// The ceiling slab of a room.
    Ceiling { room: usize },
    /// The floor slab of the walls' bounding box (when there are no rooms).
    BoundsFloor,
    /// The ceiling slab of the walls' bounding box.
    BoundsCeiling,
}

/// Index of the first entry of `ids` from position `i` on equal to `id`.
pub open spec fn find_from(ids: Seq<u128>, id: u128, i: int) -> Option<int>
    decreases ids.len() - i,
{
    if i < 0 || i >= ids.len() {
        None
    } else if ids[i] == id {
        Some(i)
    } else {
        find_from(ids, id, i + 1)
    }
}

/// Index of the first entry of `ids` equal to `id`.
pub open spec fn find_first(ids: Seq<u128>, id: u128) -> Option<int> {
    find_from(ids, id, 0)
}

proof fn lemma_find_from(ids: Seq<u128>, id: u128, i: int)
    requires
        0 <= i,
    ensures
        find_from(ids, id, i) matches Some(k) ==> i <= k < ids.len() && ids[k] == id && forall|j: int|
            i <= j < k ==> #[trigger] ids[j] != id,
        find_from(ids, id, i) is None ==> forall|j: int| i <= j < ids.len() ==> #[trigger] ids[j] != id,
    decreases ids.len() - i,
{
    if i < ids.len() && ids[i] != id {
        lemma_find_from(ids, id, i + 1);
    }
}

/// Position of the first entry equal to `id`.
pub fn find_first_index(ids: &Vec<u128>, id: u128) -> (r: Option<usize>)
    ensures
        r matches Some(k) ==> find_first(ids@, id) == Some(k as int),
        r is None ==> find_first(ids@, id) is None,
{
    let mut i: usize = 0;
    while i < ids.len()
        invariant
            i <= ids@.len(),
            find_first(ids@, id) == find_from(ids@, id, i as int),
        decreases ids@.len() - i,
    {
        if ids[i] == id {
            return Some(i);
        }
        i = i + 1;
    }
    None
}

/// Opening frames: one per opening whose wall exists, on the first wall with that id.
pub open spec fn opening_jobs(opening_walls: Seq<u128>, walls: Seq<u128>) -> Seq<MeshJob>
    decreases opening_walls.len(),
{
    if opening_walls.len() == 0 {
        Seq::empty()
    } else {
        opening_jobs(opening_walls.drop_last(), walls) + match find_first(walls, opening_walls.last()) {
            Some(k) => seq![MeshJob::Opening { opening: (opening_walls.len() - 1) as usize, wall: k as usize }],
            None => Seq::empty(),
        }
    }
}

/// Slabs of the rooms that have at least three corners: floor, then ceiling
/// when asked for.
pub open spec fn room_jobs(polygon_lens: Seq<usize>, ceiling: bool) -> Seq<MeshJob>
    decreases polygon_lens.len(),
{
    if polygon_lens.len() == 0 {
        Seq::empty()
    } else {
        let r = (polygon_lens.len() - 1) as usize;
        room_jobs(polygon_lens.drop_last(), ceiling) + if polygon_lens.last() >= 3 {
            if ceiling {
                seq![MeshJob::Floor { room: r }, MeshJob::Ceiling { room: r }]
            } else {
                seq![MeshJob::Floor { room: r }]
            }
        } else {
            Seq::empty()
        }
    }
}

/// The meshes of a floorplan, in build order: every wall, the opening frames,
/// the room slabs, and — when there are walls but no rooms — a slab over the
/// walls' bounding box.
pub open spec fn mesh_plan(
    walls: Seq<u128>,
    opening_walls: Seq<u128>,
    polygon_lens: Seq<usize>,
    opts: ExtrudeOptions,
) -> Seq<MeshJob> {
    Seq::new(walls.len(), |i: int| MeshJob::Wall { wall: i as usize }) + opening_jobs(opening_walls, walls)
        + room_jobs(polygon_lens, opts.include_ceiling) + if polygon_lens.len() == 0 && walls.len() > 0 {
        if opts.include_ceiling {
            seq![MeshJob::BoundsFloor, MeshJob::BoundsCeiling]
        } else {
            seq![MeshJob::BoundsFloor]
        }
    } else {
        Seq::empty()
    }
}

/// Decides which meshes to build: wall ids of the walls in order, the wall
/// id each opening refers to, and the corner count of each room polygon.
/// A floorplan with neither walls nor rooms is refused.
pub fn plan_meshes(
    walls: &Vec<u128>,
    opening_walls: &Vec<u128>,
    polygon_lens: &Vec<usize>,
    opts: &ExtrudeOptions,
) -> (r: Result<Vec<MeshJob>, OpenSpaceError>)
    ensures
        r is Err <==> walls@.len() == 0 && polygon_lens@.len() == 0,
        r matches Err(e) ==> e matches OpenSpaceError::InvalidFloorplan(m) && m@
            == "empty IR: add walls or rooms before build"@,
        r matches Ok(jobs) ==> jobs@ == mesh_plan(walls@, opening_walls@, polygon_lens@, *opts),
{
    if walls.len() == 0 && polygon_lens.len() == 0 {
        return Err(OpenSpaceError::InvalidFloorplan(String::from_str("empty IR: add walls or rooms before build")));
    }
    let mut jobs: Vec<MeshJob> = Vec::new();
    let mut i: usize = 0;
    while i < walls.len()
        invariant
            i <= walls@.len(),
            jobs@ == Seq::new(i as nat, |k: int| MeshJob::Wall { wall: k as usize }),
        decreases walls@.len() - i,
    {
        jobs.push(MeshJob::Wall { wall: i });
        assert(jobs@ =~= Seq::new(i as nat + 1, |k: int| MeshJob::Wall { wall: k as usize }));
        i = i + 1;
    }
    let ghost after_walls = jobs@;
    let mut j: usize = 0;
    while j < opening_walls.len()
        invariant
            j <= opening_walls@.len(),
            jobs@ == after_walls + opening_jobs(opening_walls@.take(j as int), walls@),
        decreases opening_walls@.len() - j,
    {
        proof {
            assert(opening_walls@.take(j as int + 1).drop_last() =~= opening_walls@.take(j as int));
            assert(opening_walls@.take(j as int + 1).last() == opening_walls@[j as int]);
        }
        match find_first_index(walls, opening_walls[j]) {
            Some(k) => {
                jobs.push(MeshJob::Opening { opening: j, wall: k });
            },
            None => {},
        }
        proof {
            assert(jobs@ =~= after_walls + opening_jobs(opening_walls@.take(j as int + 1), walls@));
        }
        j = j + 1;
    }
    proof {
        assert(opening_walls@.take(opening_walls@.len() as int) =~= opening_walls@);
    }
    let ghost after_openings = jobs@;
    let mut r: usize = 0;
    while r < polygon_lens.len()
        invariant
            r <= polygon_lens@.len(),
            jobs@ == after_openings + room_jobs(polygon_lens@.take(r as int), opts.include_ceiling),
        decreases polygon_lens@.len() - r,
    {
        proof {
            assert(polygon_lens@.take(r as int + 1).drop_last() =~= polygon_lens@.take(r as int));
            assert(polygon_lens@.take(r as int + 1).last() == polygon_lens@[r as int]);
        }
        if polygon_lens[r] >= 3 {
            jobs.push(MeshJob::Floor { room: r });
            if opts.include_ceiling {
                jobs.push(MeshJob::Ceiling { room: r });
            }
        }
        proof {
            assert(jobs@ =~= after_openings + room_jobs(polygon_lens@.take(r as int + 1), opts.include_ceiling));
        }
        r = r + 1;
    }
    proof {
        assert(polygon_lens@.take(polygon_lens@.len() as int) =~= polygon_lens@);
    }
    let ghost after_rooms = jobs@;
    if polygon_lens.len() == 0 && walls.len() > 0 {
        jobs.push(MeshJob::BoundsFloor);
        if opts.include_ceiling {
            jobs.push(MeshJob::BoundsCeiling);
        }
    }
    assert(jobs@ =~= mesh_plan(walls@, opening_walls@, polygon_lens@, *opts));
    Ok(jobs)
}

/// The frame of opening `opening` is placed on wall `wall`, the first wall
/// whose id is the one the opening refers to.
pub open spec fn frame_on_wall(job: MeshJob, opening_walls: Seq<u128>, walls: Seq<u128>) -> bool {
    match job {
        MeshJob::Opening { opening, wall } => {
            &&& opening < opening_walls.len()
            &&& wall < walls.len()
            &&& walls[wall as int] == opening_walls[opening as int]
            &&& forall|j: int| 0 <= j < wall ==> #[trigger] walls[j] != opening_walls[opening as int]
        },
        _ => false,
    }
}

/// Every opening frame of a plan sits on an existing wall carrying the id
/// the opening refers to, and no earlier wall carries that id.
pub proof fn lemma_opening_jobs_on_walls(opening_walls: Seq<u128>, walls: Seq<u128>, k: int)
    requires
        0 <= k < opening_jobs(opening_walls, walls).len(),
        opening_walls.len() <= usize::MAX,
        walls.len() <= usize::MAX,
    ensures
        frame_on_wall(opening_jobs(opening_walls, walls)[k], opening_walls, walls),
    decreases opening_walls.len(),
{
    let prev = opening_jobs(opening_walls.drop_last(), walls);
    lemma_find_from(walls, opening_walls.last(), 0);
    if k < prev.len() {
        lemma_opening_jobs_on_walls(opening_walls.drop_last(), walls, k);
        assert(opening_jobs(opening_walls, walls)[k] == prev[k]);
        let job = prev[k];
        if let MeshJob::Opening { opening, wall } = job {
            assert(opening_walls.drop_last()[opening as int] == opening_walls[opening as int]);
        }
    } else {
        let n = opening_walls.len();
        match find_first(walls, opening_walls.last()) {
            Some(w) => {
                assert(opening_jobs(opening_walls, walls)[k] == MeshJob::Opening {
                    opening: (n - 1) as usize,
                    wall: w as usize,
                });
                assert(opening_walls.last() == opening_walls[n - 1]);
            },
            None => {
                assert(false);
            },
        }
    }
}

/// Every opening whose wall exists gets its frame: for each opening `j`
/// and the first wall `w` carrying the opening's wall id, the opening jobs
/// hold `Opening { opening: j, wall: w }`.
proof fn lemma_opening_jobs_complete(opening_walls: Seq<u128>, walls: Seq<u128>, j: int, w: int)
    requires
        0 <= j < opening_walls.len(),
        opening_walls.len() <= usize::MAX,
        walls.len() <= usize::MAX,
        0 <= w < walls.len(),
        walls[w] == opening_walls[j],
        forall|i: int| 0 <= i < w ==> walls[i] != opening_walls[j],
    ensures
        opening_jobs(opening_walls, walls).contains(MeshJob::Opening { opening: j as usize, wall: w as usize }),
    decreases opening_walls.len(),
{
    let job = MeshJob::Opening { opening: j as usize, wall: w as usize };
    let prev = opening_walls.drop_last();
    let n = opening_walls.len() - 1;
    if j < n {
        assert(prev[j] == opening_walls[j]);
        lemma_opening_jobs_complete(prev, walls, j, w);
        let k = choose|k: int| 0 <= k < opening_jobs(prev, walls).len() && opening_jobs(prev, walls)[k] == job;
        assert(opening_jobs(opening_walls, walls)[k] == job);
    } else {
        lemma_find_from(walls, opening_walls.last(), 0);
        let f = find_first(walls, opening_walls.last());
        if let Some(k) = f {
            if k < w {
                assert(walls[k] != opening_walls[j]);
            }
            if w < k {
                assert(walls[w] != opening_walls.last());
            }
            assert(k == w);
        } else {
            assert(walls[w] != opening_walls.last());
        }
        let pl = opening_jobs(prev, walls).len() as int;
        assert(opening_jobs(opening_walls, walls)[pl] == job);
    }
}

/// The plan frames every opening whose wall exists, on the first wall with
/// the opening's wall id (and, by [`lemma_opening_jobs_on_walls`], frames
/// nothing else): openings sharing a wall each get their own frame.
pub proof fn lemma_plan_frames_every_opening(
    walls: Seq<u128>,
    opening_walls: Seq<u128>,
    polygon_lens: Seq<usize>,
    opts: ExtrudeOptions,
    j: int,
    w: int,
)
    requires
        0 <= j < opening_walls.len(),
        opening_walls.len() <= usize::MAX,
        walls.len() <= usize::MAX,
        0 <= w < walls.len(),
        walls[w] == opening_walls[j],
        forall|i: int| 0 <= i < w ==> walls[i] != opening_walls[j],
    ensures
        mesh_plan(walls, opening_walls, polygon_lens, opts).contains(
            MeshJob::Opening { opening: j as usize, wall: w as usize },
        ),
{
    let job = MeshJob::Opening { opening: j as usize, wall: w as usize };
    lemma_opening_jobs_complete(opening_walls, walls, j, w);
    let oj = opening_jobs(opening_walls, walls);
    let k = choose|k: int| 0 <= k < oj.len() && oj[k] == job;
    let a = Seq::new(walls.len(), |i: int| MeshJob::Wall { wall: i as usize });
    let plan = mesh_plan(walls, opening_walls, polygon_lens, opts);
    assert(plan[a.len() + k] == job);
}

} // verus!
