//! Binary glTF (GLB) buffer layout and container framing.
//!
//! Vertex attributes arrive as the bit patterns of their 32-bit floats, so
//! every byte written here is an integer computation.
use vstd::prelude::*;

verus! {

/// `n` rounded up to the next multiple of four.
pub open spec fn align4_spec(n: int) -> int {
    (n + 3) / 4 * 4
}

/// `n` zero bytes.
pub open spec fn zeros(n: int) -> Seq<u8> {
    Seq::new(n as nat, |i: int| 0u8)
}

/// `n` ASCII spaces.
pub open spec fn spaces(n: int) -> Seq<u8> {
    Seq::new(n as nat, |i: int| 0x20u8)
}

/// A byte sequence padded with zeros to a multiple of four.
pub open spec fn pad4(b: Seq<u8>) -> Seq<u8> {
    b + zeros(align4_spec(b.len() as int) - b.len())
}

/// Little-endian bytes of a 32-bit word.
pub open spec fn le32(v: u32) -> Seq<u8> {
    seq![(v & 0xff) as u8, ((v >> 8u32) & 0xff) as u8, ((v >> 16u32) & 0xff) as u8, (v >> 24u32) as u8]
}

/// Little-endian bytes of a sequence of words, in order.
pub open spec fn le_words(s: Seq<u32>) -> Seq<u8>
    decreases s.len(),
{
    if s.len() == 0 {
        Seq::empty()
    } else {
        le_words(s.drop_last()) + le32(s.last())
    }
}

/// The word stored little-endian at byte offset `at`.
pub open spec fn read_le32(b: Seq<u8>, at: int) -> u32 {
    (b[at] as u32) | ((b[at + 1] as u32) << 8u32) | ((b[at + 2] as u32) << 16u32) | ((b[at + 3] as u32) << 24u32)
}

/// Rounds up to a multiple of four.
pub fn align4(n: usize) -> (r: usize)
    requires
        n + 3 <= usize::MAX,
    ensures
        r == align4_spec(n as int),
        r % 4 == 0,
        n <= r < n + 4,
{
    (n + 3) / 4 * 4
}

/// Appends zero bytes until `buf` is `len` long; a longer `buf` is left alone.
pub fn pad_to(buf: &mut Vec<u8>, len: usize)
    ensures
        old(buf)@.len() >= len ==> final(buf)@ == old(buf)@,
        old(buf)@.len() < len ==> final(buf)@ == old(buf)@ + zeros(len - old(buf)@.len()),
{
    let ghost start = buf@;
    while buf.len() < len
        invariant
            start.len() <= buf@.len(),
            start.len() < len ==> buf@.len() <= len,
            start.len() >= len ==> buf@.len() == start.len(),
            buf@ == start + zeros(buf@.len() - start.len()),
        decreases len - buf@.len(),
    {
        buf.push(0u8);
        assert(buf@ =~= start + zeros(buf@.len() - start.len()));
    }
    assert(zeros(0) =~= Seq::<u8>::empty());
    assert(start + zeros(0) =~= start);
}

/// Appends the little-endian bytes of `v`.
pub fn push_le32(buf: &mut Vec<u8>, v: u32)
    ensures
        final(buf)@ == old(buf)@ + le32(v),
{
    buf.push((v & 0xff) as u8);
    buf.push(((v >> 8u32) & 0xff) as u8);
    buf.push(((v >> 16u32) & 0xff) as u8);
    buf.push((v >> 24u32) as u8);
    assert(final(buf)@ =~= old(buf)@ + le32(v));
}

/// Appends the little-endian bytes of every word of `data`.
pub fn push_words(buf: &mut Vec<u8>, data: &Vec<u32>)
    ensures
        final(buf)@ == old(buf)@ + le_words(data@),
{
    let ghost start = buf@;
    let mut i: usize = 0;
    while i < data.len()
        invariant
            i <= data@.len(),
            buf@ == start + le_words(data@.take(i as int)),
        decreases data@.len() - i,
    {
        let ghost before = buf@;
        push_le32(buf, data[i]);
        assert(data@.take(i as int + 1).drop_last() =~= data@.take(i as int));
        assert(buf@ =~= start + le_words(data@.take(i as int + 1)));
        i = i + 1;
    }
    assert(data@.take(data@.len() as int) =~= data@);
}

/// A word written little-endian reads back unchanged.
pub proof fn lemma_le32_roundtrip(v: u32)
    ensures
        read_le32(le32(v), 0) == v,
{
    let b0 = (v & 0xff) as u8;
    let b1 = ((v >> 8u32) & 0xff) as u8;
    let b2 = ((v >> 16u32) & 0xff) as u8;
    let b3 = (v >> 24u32) as u8;
    assert(le32(v)[0] == b0 && le32(v)[1] == b1 && le32(v)[2] == b2 && le32(v)[3] == b3);
    assert((b0 as u32) | ((b1 as u32) << 8u32) | ((b2 as u32) << 16u32) | ((b3 as u32) << 24u32) == v)
        by (bit_vector)
        requires
            b0 == (v & 0xff) as u8,
            b1 == ((v >> 8u32) & 0xff) as u8,
            b2 == ((v >> 16u32) & 0xff) as u8,
            b3 == (v >> 24u32) as u8,
    ;
}

/// The word sequence occupies four bytes per word.
pub proof fn lemma_le_words_len(s: Seq<u32>)
    ensures
        le_words(s).len() == 4 * s.len(),
    decreases s.len(),
{
    if s.len() > 0 {
        lemma_le_words_len(s.drop_last());
    }
}

/// Word `k` of a sequence sits at bytes `4k .. 4k+4` of its encoding.
pub proof fn lemma_le_words_index(s: Seq<u32>, k: int)
    requires
        0 <= k < s.len(),
    ensures
        le_words(s).subrange(4 * k, 4 * k + 4) == le32(s[k]),
    decreases s.len(),
{
    lemma_le_words_len(s.drop_last());
    if k == s.len() - 1 {
        assert(le_words(s).subrange(4 * k, 4 * k + 4) =~= le32(s[k]));
    } else {
        lemma_le_words_index(s.drop_last(), k);
        assert(le_words(s).subrange(4 * k, 4 * k + 4) =~= le_words(s.drop_last()).subrange(4 * k, 4 * k + 4));
    }
}

/// Reading word `k` back from an encoded word sequence gives `s[k]`.
pub proof fn lemma_le_words_readback(s: Seq<u32>, k: int)
    requires
        0 <= k < s.len(),
    ensures
        read_le32(le_words(s), 4 * k) == s[k],
{
    lemma_le_words_index(s, k);
    lemma_le_words_len(s);
    lemma_le32_roundtrip(s[k]);
    let w = le_words(s);
    let q = w.subrange(4 * k, 4 * k + 4);
    assert(w[4 * k] == q[0] && w[4 * k + 1] == q[1] && w[4 * k + 2] == q[2] && w[4 * k + 3] == q[3]);
}


/// Appends every byte of `data`.
pub fn push_bytes(buf: &mut Vec<u8>, data: &Vec<u8>)
    ensures
        final(buf)@ == old(buf)@ + data@,
{
    let ghost start = buf@;
    let mut i: usize = 0;
    while i < data.len()
        invariant
            i <= data@.len(),
            buf@ == start + data@.take(i as int),
        decreases data@.len() - i,
    {
        buf.push(data[i]);
        assert(buf@ =~= start + data@.take(i as int + 1));
        i = i + 1;
    }
    assert(data@.take(data@.len() as int) =~= data@);
}

/// glTF buffer-view target for vertex attributes.
pub const ARRAY_BUFFER: u32 = 34962;
/// glTF buffer-view target for vertex indices.
pub const ELEMENT_ARRAY_BUFFER: u32 = 34963;
/// glTF component type of 32-bit floats.
pub const COMPONENT_FLOAT: u32 = 5126;
/// glTF component type of 32-bit unsigned integers.
pub const COMPONENT_UNSIGNED_INT: u32 = 5125;

/// Shape of the elements an accessor reads.
#[derive(Debug, Clone, Copy, PartialEq, Eq, Structural)]
pub enum AccessorType {
    Scalar,
    Vec2,
    Vec3,
    Vec4,
}

/// A byte range of the single binary buffer.
#[derive(Debug, Clone, Copy)]
pub struct BufferView {
    pub byte_offset: usize,
    pub byte_length: usize,
    pub target: Option<u32>,
}

/// A typed reading of one buffer view.
#[derive(Debug, Clone, Copy)]
pub struct Accessor {
    pub buffer_view: usize,
    pub component_type: u32,
    pub count: usize,
    pub kind: AccessorType,
}

/// The binary buffer with the views and accessors that describe it.
pub struct BinaryLayout {
    pub bin: Vec<u8>,
    pub views: Vec<BufferView>,
    pub accessors: Vec<Accessor>,
}

/// Mathematical content of a [`BinaryLayout`].
pub struct LayoutSpec {
    pub bin: Seq<u8>,
    pub views: Seq<BufferView>,
    pub accessors: Seq<Accessor>,
}

impl View for BinaryLayout {
    type V = LayoutSpec;

    open spec fn view(&self) -> LayoutSpec {
        LayoutSpec { bin: self.bin@, views: self.views@, accessors: self.accessors@ }
    }
}

/// The element shape of an accessor with `comps` components per element.
pub open spec fn kind_for(comps: int) -> AccessorType {
    if comps == 2 {
        AccessorType::Vec2
    } else if comps == 3 {
        AccessorType::Vec3
    } else if comps == 4 {
        AccessorType::Vec4
    } else {
        AccessorType::Scalar
    }
}

/// Pads the buffer to a four-byte boundary, appends `data`, and records a view on it.
pub open spec fn spec_push_segment(l: LayoutSpec, data: Seq<u8>, target: Option<u32>) -> LayoutSpec {
    LayoutSpec {
        bin: pad4(l.bin) + data,
        views: l.views.push(
            BufferView {
                byte_offset: align4_spec(l.bin.len() as int) as usize,
                byte_length: data.len() as usize,
                target,
            },
        ),
        accessors: l.accessors,
    }
}

/// Records an accessor on the most recent view.
pub open spec fn spec_push_accessor(l: LayoutSpec, component_type: u32, count: int, kind: AccessorType) -> LayoutSpec {
    LayoutSpec {
        bin: l.bin,
        views: l.views,
        accessors: l.accessors.push(
            Accessor {
                buffer_view: (l.views.len() - 1) as usize,
                component_type,
                count: count as usize,
                kind,
            },
        ),
    }
}

/// Float attribute data (given as bit patterns), `comps` floats per element.
pub open spec fn spec_push_f32(l: LayoutSpec, flat: Seq<u32>, comps: int) -> LayoutSpec {
    spec_push_accessor(
        spec_push_segment(l, le_words(flat), Some(ARRAY_BUFFER)),
        COMPONENT_FLOAT,
        flat.len() as int / comps,
        kind_for(comps),
    )
}

/// Index data.
pub open spec fn spec_push_u32(l: LayoutSpec, data: Seq<u32>) -> LayoutSpec {
    spec_push_accessor(
        spec_push_segment(l, le_words(data), Some(ELEMENT_ARRAY_BUFFER)),
        COMPONENT_UNSIGNED_INT,
        data.len() as int,
        AccessorType::Scalar,
    )
}

proof fn lemma_pad4_len(b: Seq<u8>)
    ensures
        pad4(b).len() == align4_spec(b.len() as int),
        b.len() <= align4_spec(b.len() as int) < b.len() + 4,
        align4_spec(b.len() as int) % 4 == 0,
{
}

/// Pads, appends the bytes, records a view; returns the new view's index.
fn push_segment_bytes(layout: &mut BinaryLayout, data: &Vec<u8>, target: Option<u32>) -> (r: usize)
    requires
        old(layout)@.bin.len() + data@.len() + 3 <= usize::MAX,
    ensures
        final(layout)@ == spec_push_segment(old(layout)@, data@, target),
        r == old(layout)@.views.len(),
{
    let offset = align4(layout.bin.len());
    pad_to(&mut layout.bin, offset);
    let start = layout.bin.len();
    push_bytes(&mut layout.bin, data);
    let byte_length = layout.bin.len() - start;
    let view_index = layout.views.len();
    layout.views.push(BufferView { byte_offset: start, byte_length, target });
    proof {
        lemma_pad4_len(old(layout)@.bin);
        assert(pad4(old(layout)@.bin) =~= old(layout)@.bin + zeros(offset - old(layout)@.bin.len())) by {
            assert(zeros(0) =~= Seq::<u8>::empty());
        }
        assert(layout@.bin =~= spec_push_segment(old(layout)@, data@, target).bin);
    }
    view_index
}

/// Pads, appends the little-endian words, records a view; returns the new view's index.
fn push_segment_words(layout: &mut BinaryLayout, data: &Vec<u32>, target: Option<u32>) -> (r: usize)
    requires
        old(layout)@.bin.len() + 4 * data@.len() + 3 <= usize::MAX,
    ensures
        final(layout)@ == spec_push_segment(old(layout)@, le_words(data@), target),
        r == old(layout)@.views.len(),
{
    proof {
        lemma_le_words_len(data@);
    }
    let offset = align4(layout.bin.len());
    pad_to(&mut layout.bin, offset);
    let start = layout.bin.len();
    push_words(&mut layout.bin, data);
    let byte_length = layout.bin.len() - start;
    let view_index = layout.views.len();
    layout.views.push(BufferView { byte_offset: start, byte_length, target });
    proof {
        lemma_pad4_len(old(layout)@.bin);
        assert(pad4(old(layout)@.bin) =~= old(layout)@.bin + zeros(offset - old(layout)@.bin.len())) by {
            assert(zeros(0) =~= Seq::<u8>::empty());
        }
        assert(layout@.bin =~= spec_push_segment(old(layout)@, le_words(data@), target).bin);
    }
    view_index
}

/// Appends float attribute data (as bit patterns, `comps` per element) with
/// its view and accessor; returns the accessor's index.
pub fn push_f32_vec(layout: &mut BinaryLayout, flat: &Vec<u32>, comps: usize) -> (r: usize)
    requires
        comps > 0,
        old(layout)@.bin.len() + 4 * flat@.len() + 3 <= usize::MAX,
    ensures
        final(layout)@ == spec_push_f32(old(layout)@, flat@, comps as int),
        r == old(layout)@.accessors.len(),
{
    let view_index = push_segment_words(layout, flat, Some(ARRAY_BUFFER));
    let count = flat.len() / comps;
    let kind = if comps == 2 {
        AccessorType::Vec2
    } else if comps == 3 {
        AccessorType::Vec3
    } else if comps == 4 {
        AccessorType::Vec4
    } else {
        AccessorType::Scalar
    };
    let acc_index = layout.accessors.len();
    layout.accessors.push(Accessor { buffer_view: view_index, component_type: COMPONENT_FLOAT, count, kind });
    acc_index
}

/// Appends index data with its view and accessor; returns the accessor's index.
pub fn push_u32_accessor(layout: &mut BinaryLayout, data: &Vec<u32>) -> (r: usize)
    requires
        old(layout)@.bin.len() + 4 * data@.len() + 3 <= usize::MAX,
    ensures
        final(layout)@ == spec_push_u32(old(layout)@, data@),
        r == old(layout)@.accessors.len(),
{
    let view_index = push_segment_words(layout, data, Some(ELEMENT_ARRAY_BUFFER));
    let acc_index = layout.accessors.len();
    layout.accessors.push(
        Accessor {
            buffer_view: view_index,
            component_type: COMPONENT_UNSIGNED_INT,
            count: data.len(),
            kind: AccessorType::Scalar,
        },
    );
    acc_index
}


/// The vertex data of one mesh, floats given as their bit patterns.
pub struct MeshBuffers {
    /// Three floats per vertex.
    pub positions: Vec<u32>,
    /// Three floats per vertex.
    pub normals: Vec<u32>,
    /// Two floats per vertex.
    pub uvs: Vec<u32>,
    pub indices: Vec<u32>,
    /// An encoded PNG to use as base-color texture.
    pub texture_png: Option<Vec<u8>>,
}

/// Where a mesh's data ended up: its texture index and accessor indices.
#[derive(Debug, Clone, Copy)]
pub struct MeshRefs {
    pub texture: Option<usize>,
    pub position: usize,
    pub normal: usize,
    pub uv: usize,
    pub index: usize,
}

/// The laid-out binary chunk of a GLB scene.
pub struct GlbBinary {
    pub layout: BinaryLayout,
    /// One entry per mesh, in order.
    pub meshes: Vec<MeshRefs>,
    /// The buffer view of each texture image, in texture order.
    pub image_views: Vec<usize>,
}

/// Mathematical content of a [`GlbBinary`].
pub struct GlbSpec {
    pub layout: LayoutSpec,
    pub refs: Seq<MeshRefs>,
    pub images: Seq<usize>,
}

impl View for GlbBinary {
    type V = GlbSpec;

    open spec fn view(&self) -> GlbSpec {
        GlbSpec { layout: self.layout@, refs: self.meshes@, images: self.image_views@ }
    }
}

/// Bytes of the texture image of a mesh, empty when it has none.
pub open spec fn png_len(m: MeshBuffers) -> int {
    match m.texture_png {
        Some(p) => p@.len() as int,
        None => 0,
    }
}

/// An upper bound on the bytes one mesh adds to the buffer.
pub open spec fn mesh_cost(m: MeshBuffers) -> int {
    png_len(m) + 4 * (m.positions@.len() + m.normals@.len() + m.uvs@.len() + m.indices@.len()) + 16
}

/// The sum of [`mesh_cost`] over a scene.
pub open spec fn layout_cost(ms: Seq<MeshBuffers>) -> int
    decreases ms.len(),
{
    if ms.len() == 0 {
        0
    } else {
        layout_cost(ms.drop_last()) + mesh_cost(ms.last())
    }
}

/// Adds one mesh: its texture image (if any), then positions, normals,
/// texture coordinates and indices, each in its own aligned view.
pub open spec fn spec_add_mesh(g: GlbSpec, m: MeshBuffers) -> GlbSpec {
    let l1 = match m.texture_png {
        Some(png) => spec_push_segment(g.layout, png@, None),
        None => g.layout,
    };
    let images1 = match m.texture_png {
        Some(png) => g.images.push(g.layout.views.len() as usize),
        None => g.images,
    };
    let tex = match m.texture_png {
        Some(png) => Some(g.images.len() as usize),
        None => None,
    };
    let a0 = l1.accessors.len();
    let l2 = spec_push_f32(l1, m.positions@, 3);
    let l3 = spec_push_f32(l2, m.normals@, 3);
    let l4 = spec_push_f32(l3, m.uvs@, 2);
    let l5 = spec_push_u32(l4, m.indices@);
    GlbSpec {
        layout: l5,
        refs: g.refs.push(
            MeshRefs {
                texture: tex,
                position: a0 as usize,
                normal: (a0 + 1) as usize,
                uv: (a0 + 2) as usize,
                index: (a0 + 3) as usize,
            },
        ),
        images: images1,
    }
}

/// The layout of a sequence of meshes, before the final padding.
pub open spec fn spec_layout_meshes(ms: Seq<MeshBuffers>) -> GlbSpec
    decreases ms.len(),
{
    if ms.len() == 0 {
        GlbSpec {
            layout: LayoutSpec { bin: Seq::empty(), views: Seq::empty(), accessors: Seq::empty() },
            refs: Seq::empty(),
            images: Seq::empty(),
        }
    } else {
        spec_add_mesh(spec_layout_meshes(ms.drop_last()), ms.last())
    }
}

/// The complete binary chunk of a scene: all meshes, padded to four bytes.
pub open spec fn spec_glb_binary(ms: Seq<MeshBuffers>) -> GlbSpec {
    let g = spec_layout_meshes(ms);
    GlbSpec {
        layout: LayoutSpec { bin: pad4(g.layout.bin), views: g.layout.views, accessors: g.layout.accessors },
        refs: g.refs,
        images: g.images,
    }
}

proof fn lemma_layout_sizes(ms: Seq<MeshBuffers>)
    ensures
        spec_layout_meshes(ms).layout.bin.len() <= layout_cost(ms),
        spec_layout_meshes(ms).layout.views.len() <= 5 * ms.len(),
        spec_layout_meshes(ms).layout.accessors.len() == 4 * ms.len(),
        spec_layout_meshes(ms).images.len() <= ms.len(),
        spec_layout_meshes(ms).refs.len() == ms.len(),
        16 * ms.len() <= layout_cost(ms),
    decreases ms.len(),
{
    if ms.len() > 0 {
        lemma_layout_sizes(ms.drop_last());
        let m = ms.last();
        let g = spec_layout_meshes(ms.drop_last());
        lemma_pad4_len(g.layout.bin);
        lemma_le_words_len(m.positions@);
        lemma_le_words_len(m.normals@);
        lemma_le_words_len(m.uvs@);
        lemma_le_words_len(m.indices@);
        let l1 = match m.texture_png {
            Some(png) => spec_push_segment(g.layout, png@, None),
            None => g.layout,
        };
        lemma_pad4_len(l1.bin);
        let l2 = spec_push_f32(l1, m.positions@, 3);
        lemma_pad4_len(l2.bin);
        let l3 = spec_push_f32(l2, m.normals@, 3);
        lemma_pad4_len(l3.bin);
        let l4 = spec_push_f32(l3, m.uvs@, 2);
        lemma_pad4_len(l4.bin);
    }
}

fn add_mesh(g: &mut GlbBinary, m: &MeshBuffers)
    requires
        old(g)@.layout.bin.len() + mesh_cost(*m) + 3 <= usize::MAX,
        old(g)@.layout.views.len() + 5 <= usize::MAX,
        old(g)@.layout.accessors.len() + 4 <= usize::MAX,
    ensures
        final(g)@ == spec_add_mesh(old(g)@, *m),
{
    let ghost g0 = g@;
    proof {
        lemma_pad4_len(g0.layout.bin);
        lemma_le_words_len(m.positions@);
        lemma_le_words_len(m.normals@);
        lemma_le_words_len(m.uvs@);
        lemma_le_words_len(m.indices@);
    }
    let tex = match &m.texture_png {
        Some(png) => {
            let view = push_segment_bytes(&mut g.layout, png, None);
            let t = g.image_views.len();
            g.image_views.push(view);
            Some(t)
        },
        None => None,
    };
    proof {
        lemma_pad4_len(g.layout@.bin);
    }
    let position = push_f32_vec(&mut g.layout, &m.positions, 3);
    proof {
        lemma_pad4_len(g.layout@.bin);
    }
    let normal = push_f32_vec(&mut g.layout, &m.normals, 3);
    proof {
        lemma_pad4_len(g.layout@.bin);
    }
    let uv = push_f32_vec(&mut g.layout, &m.uvs, 2);
    proof {
        lemma_pad4_len(g.layout@.bin);
    }
    let index = push_u32_accessor(&mut g.layout, &m.indices);
    g.meshes.push(MeshRefs { texture: tex, position, normal, uv, index });
}

/// Lays out the binary chunk of a scene: for each mesh its texture image
/// (if any), positions, normals, texture coordinates and indices, each
/// four-byte aligned, then a final pad to a multiple of four.
pub fn layout_glb_binary(meshes: &Vec<MeshBuffers>) -> (r: GlbBinary)
    requires
        layout_cost(meshes@) + 3 <= usize::MAX,
    ensures
        r@ == spec_glb_binary(meshes@),
{
    let mut g = GlbBinary {
        layout: BinaryLayout { bin: Vec::new(), views: Vec::new(), accessors: Vec::new() },
        meshes: Vec::new(),
        image_views: Vec::new(),
    };
    let mut i: usize = 0;
    proof {
        assert(meshes@.take(0) =~= Seq::<MeshBuffers>::empty());
        assert(g@ == spec_layout_meshes(meshes@.take(0)));
    }
    while i < meshes.len()
        invariant
            i <= meshes@.len(),
            layout_cost(meshes@) + 3 <= usize::MAX,
            g@ == spec_layout_meshes(meshes@.take(i as int)),
        decreases meshes@.len() - i,
    {
        proof {
            lemma_layout_cost_prefix(meshes@, i as int + 1);
            lemma_layout_sizes(meshes@.take(i as int));
            lemma_layout_sizes(meshes@.take(i as int + 1));
            assert(meshes@.take(i as int + 1).drop_last() =~= meshes@.take(i as int));
            assert(meshes@.take(i as int + 1).last() == meshes@[i as int]);
        }
        add_mesh(&mut g, &meshes[i]);
        i = i + 1;
    }
    proof {
        assert(meshes@.take(meshes@.len() as int) =~= meshes@);
        lemma_layout_sizes(meshes@);
    }
    let len = g.layout.bin.len();
    let pad_len = align4(len);
    pad_to(&mut g.layout.bin, pad_len);
    proof {
        lemma_pad4_len(spec_layout_meshes(meshes@).layout.bin);
        assert(zeros(0) =~= Seq::<u8>::empty());
        assert(g@.layout.bin =~= spec_glb_binary(meshes@).layout.bin);
    }
    g
}

proof fn lemma_layout_cost_prefix(ms: Seq<MeshBuffers>, k: int)
    requires
        0 <= k <= ms.len(),
    ensures
        layout_cost(ms.take(k)) <= layout_cost(ms),
        k > 0 ==> layout_cost(ms.take(k)) == layout_cost(ms.take(k - 1)) + mesh_cost(ms[k - 1]),
    decreases ms.len(),
{
    if k > 0 {
        assert(ms.take(k).drop_last() =~= ms.take(k - 1));
    }
    if ms.len() > 0 && k < ms.len() {
        lemma_layout_cost_prefix(ms.drop_last(), k);
        assert(ms.drop_last().take(k) =~= ms.take(k));
    }
    if k == ms.len() {
        assert(ms.take(k) =~= ms);
    }
}


/// `b` keeps every byte, view and accessor of `a`, possibly adding more.
pub open spec fn extends(a: LayoutSpec, b: LayoutSpec) -> bool {
    &&& a.bin.len() <= b.bin.len()
    &&& forall|i: int| 0 <= i < a.bin.len() ==> #[trigger] b.bin[i] == a.bin[i]
    &&& a.views.len() <= b.views.len()
    &&& forall|i: int| 0 <= i < a.views.len() ==> #[trigger] b.views[i] == a.views[i]
    &&& a.accessors.len() <= b.accessors.len()
    &&& forall|i: int| 0 <= i < a.accessors.len() ==> #[trigger] b.accessors[i] == a.accessors[i]
}

/// View `v` of `l` covers exactly the bytes `data`.
pub open spec fn view_holds(l: LayoutSpec, v: int, data: Seq<u8>) -> bool {
    &&& 0 <= v < l.views.len()
    &&& l.views[v].byte_length == data.len()
    &&& l.views[v].byte_offset + l.views[v].byte_length <= l.bin.len()
    &&& forall|j: int| 0 <= j < data.len() ==> #[trigger] l.bin[l.views[v].byte_offset + j] == data[j]
}

/// Accessor `acc` of `l` reads the bytes `data` through its view.
pub open spec fn reads_back(l: LayoutSpec, acc: int, data: Seq<u8>) -> bool {
    &&& 0 <= acc < l.accessors.len()
    &&& view_holds(l, l.accessors[acc].buffer_view as int, data)
}

/// Mesh `k` of a laid-out scene reads back as `m`: each of its accessors
/// covers exactly its data with the right element type and count, and its
/// texture (if any) is an image whose view holds the PNG bytes.
pub open spec fn mesh_reads_back(g: GlbSpec, k: int, m: MeshBuffers) -> bool {
    let r = g.refs[k];
    let acc = g.layout.accessors;
    &&& 0 <= k < g.refs.len()
    &&& reads_back(g.layout, r.position as int, le_words(m.positions@))
    &&& acc[r.position as int].component_type == COMPONENT_FLOAT
    &&& acc[r.position as int].kind == AccessorType::Vec3
    &&& acc[r.position as int].count == m.positions@.len() / 3
    &&& reads_back(g.layout, r.normal as int, le_words(m.normals@))
    &&& acc[r.normal as int].component_type == COMPONENT_FLOAT
    &&& acc[r.normal as int].kind == AccessorType::Vec3
    &&& acc[r.normal as int].count == m.normals@.len() / 3
    &&& reads_back(g.layout, r.uv as int, le_words(m.uvs@))
    &&& acc[r.uv as int].component_type == COMPONENT_FLOAT
    &&& acc[r.uv as int].kind == AccessorType::Vec2
    &&& acc[r.uv as int].count == m.uvs@.len() / 2
    &&& reads_back(g.layout, r.index as int, le_words(m.indices@))
    &&& acc[r.index as int].component_type == COMPONENT_UNSIGNED_INT
    &&& acc[r.index as int].kind == AccessorType::Scalar
    &&& acc[r.index as int].count == m.indices@.len()
    &&& match m.texture_png {
        Some(png) => r.texture matches Some(t) && 0 <= t < g.images.len() && view_holds(
            g.layout,
            g.images[t as int] as int,
            png@,
        ),
        None => r.texture is None,
    }
}

proof fn lemma_extends_trans(a: LayoutSpec, b: LayoutSpec, c: LayoutSpec)
    requires
        extends(a, b),
        extends(b, c),
    ensures
        extends(a, c),
{
    assert forall|i: int| 0 <= i < a.bin.len() implies #[trigger] c.bin[i] == a.bin[i] by {
        assert(c.bin[i] == b.bin[i]);
    }
    assert forall|i: int| 0 <= i < a.views.len() implies #[trigger] c.views[i] == a.views[i] by {
        assert(c.views[i] == b.views[i]);
    }
    assert forall|i: int| 0 <= i < a.accessors.len() implies #[trigger] c.accessors[i] == a.accessors[i] by {
        assert(c.accessors[i] == b.accessors[i]);
    }
}

proof fn lemma_view_persists(a: LayoutSpec, b: LayoutSpec, v: int, data: Seq<u8>)
    requires
        extends(a, b),
        view_holds(a, v, data),
    ensures
        view_holds(b, v, data),
{
    assert(b.views[v] == a.views[v]);
    assert forall|j: int| 0 <= j < data.len() implies #[trigger] b.bin[b.views[v].byte_offset + j] == data[j] by {
        assert(a.bin[a.views[v].byte_offset + j] == data[j]);
        assert(b.bin[a.views[v].byte_offset + j] == a.bin[a.views[v].byte_offset + j]);
    }
}

proof fn lemma_reads_persist(a: LayoutSpec, b: LayoutSpec, acc: int, data: Seq<u8>)
    requires
        extends(a, b),
        reads_back(a, acc, data),
    ensures
        reads_back(b, acc, data),
        b.accessors[acc] == a.accessors[acc],
{
    assert(b.accessors[acc] == a.accessors[acc]);
    lemma_view_persists(a, b, a.accessors[acc].buffer_view as int, data);
}

proof fn lemma_push_segment_facts(l: LayoutSpec, data: Seq<u8>, target: Option<u32>)
    requires
        l.bin.len() + data.len() + 3 <= usize::MAX,
    ensures
        extends(l, spec_push_segment(l, data, target)),
        view_holds(spec_push_segment(l, data, target), l.views.len() as int, data),
        spec_push_segment(l, data, target).views.len() == l.views.len() + 1,
        spec_push_segment(l, data, target).accessors == l.accessors,
{
    let r = spec_push_segment(l, data, target);
    lemma_pad4_len(l.bin);
    let off = align4_spec(l.bin.len() as int);
    assert(r.views[l.views.len() as int].byte_offset == off);
    assert forall|i: int| 0 <= i < l.bin.len() implies #[trigger] r.bin[i] == l.bin[i] by {
        assert(r.bin[i] == pad4(l.bin)[i]);
    }
    assert forall|i: int| 0 <= i < l.views.len() implies #[trigger] r.views[i] == l.views[i] by {}
    assert forall|j: int| 0 <= j < data.len() implies #[trigger] r.bin[r.views[l.views.len() as int].byte_offset
        + j] == data[j] by {
        assert(r.bin[off + j] == data[j]);
    }
}

proof fn lemma_push_accessor_facts(l: LayoutSpec, component_type: u32, count: int, kind: AccessorType)
    requires
        l.views.len() >= 1,
        l.views.len() <= usize::MAX,
        0 <= count <= usize::MAX,
    ensures
        extends(l, spec_push_accessor(l, component_type, count, kind)),
        spec_push_accessor(l, component_type, count, kind).accessors.len() == l.accessors.len() + 1,
        spec_push_accessor(l, component_type, count, kind).accessors[l.accessors.len() as int] == (Accessor {
            buffer_view: (l.views.len() - 1) as usize,
            component_type,
            count: count as usize,
            kind,
        }),
        spec_push_accessor(l, component_type, count, kind).views == l.views,
        spec_push_accessor(l, component_type, count, kind).bin == l.bin,
{
    let r = spec_push_accessor(l, component_type, count, kind);
    assert forall|i: int| 0 <= i < l.accessors.len() implies #[trigger] r.accessors[i] == l.accessors[i] by {}
}

/// Pushing float data adds an accessor that reads it back.
proof fn lemma_push_f32_facts(l: LayoutSpec, flat: Seq<u32>, comps: int)
    requires
        l.bin.len() + 4 * flat.len() + 3 <= usize::MAX,
        l.views.len() + 1 <= usize::MAX,
        comps > 0,
    ensures
        extends(l, spec_push_f32(l, flat, comps)),
        reads_back(spec_push_f32(l, flat, comps), l.accessors.len() as int, le_words(flat)),
        spec_push_f32(l, flat, comps).accessors[l.accessors.len() as int].component_type == COMPONENT_FLOAT,
        spec_push_f32(l, flat, comps).accessors[l.accessors.len() as int].kind == kind_for(comps),
        spec_push_f32(l, flat, comps).accessors[l.accessors.len() as int].count == flat.len() as int / comps,
        spec_push_f32(l, flat, comps).accessors.len() == l.accessors.len() + 1,
        spec_push_f32(l, flat, comps).views.len() == l.views.len() + 1,
{
    lemma_le_words_len(flat);
    let data = le_words(flat);
    let l1 = spec_push_segment(l, data, Some(ARRAY_BUFFER));
    lemma_push_segment_facts(l, data, Some(ARRAY_BUFFER));
    assert(flat.len() as int / comps <= flat.len()) by (nonlinear_arith)
        requires
            comps > 0,
    ;
    lemma_push_accessor_facts(l1, COMPONENT_FLOAT, flat.len() as int / comps, kind_for(comps));
    let l2 = spec_push_f32(l, flat, comps);
    lemma_extends_trans(l, l1, l2);
    lemma_view_persists(l1, l2, l.views.len() as int, data);
}

/// Pushing index data adds an accessor that reads it back.
proof fn lemma_push_u32_facts(l: LayoutSpec, data: Seq<u32>)
    requires
        l.bin.len() + 4 * data.len() + 3 <= usize::MAX,
        l.views.len() + 1 <= usize::MAX,
    ensures
        extends(l, spec_push_u32(l, data)),
        reads_back(spec_push_u32(l, data), l.accessors.len() as int, le_words(data)),
        spec_push_u32(l, data).accessors[l.accessors.len() as int].component_type == COMPONENT_UNSIGNED_INT,
        spec_push_u32(l, data).accessors[l.accessors.len() as int].kind == AccessorType::Scalar,
        spec_push_u32(l, data).accessors[l.accessors.len() as int].count == data.len(),
        spec_push_u32(l, data).accessors.len() == l.accessors.len() + 1,
        spec_push_u32(l, data).views.len() == l.views.len() + 1,
{
    lemma_le_words_len(data);
    let bytes = le_words(data);
    let l1 = spec_push_segment(l, bytes, Some(ELEMENT_ARRAY_BUFFER));
    lemma_push_segment_facts(l, bytes, Some(ELEMENT_ARRAY_BUFFER));
    lemma_push_accessor_facts(l1, COMPONENT_UNSIGNED_INT, data.len() as int, AccessorType::Scalar);
    let l2 = spec_push_u32(l, data);
    lemma_extends_trans(l, l1, l2);
    lemma_view_persists(l1, l2, l.views.len() as int, bytes);
}

/// Adding a mesh keeps everything laid out before and makes the new mesh read back.
proof fn lemma_add_mesh_facts(g: GlbSpec, m: MeshBuffers)
    requires
        g.layout.bin.len() + mesh_cost(m) + 3 <= usize::MAX,
        g.layout.views.len() + 5 <= usize::MAX,
        g.layout.accessors.len() + 4 <= usize::MAX,
        g.images.len() < usize::MAX,
    ensures
        extends(g.layout, spec_add_mesh(g, m).layout),
        spec_add_mesh(g, m).refs.len() == g.refs.len() + 1,
        forall|k: int| 0 <= k < g.refs.len() ==> #[trigger] spec_add_mesh(g, m).refs[k] == g.refs[k],
        g.images.len() <= spec_add_mesh(g, m).images.len(),
        forall|t: int| 0 <= t < g.images.len() ==> #[trigger] spec_add_mesh(g, m).images[t] == g.images[t],
        mesh_reads_back(spec_add_mesh(g, m), g.refs.len() as int, m),
{
    let r = spec_add_mesh(g, m);
    lemma_pad4_len(g.layout.bin);
    lemma_le_words_len(m.positions@);
    lemma_le_words_len(m.normals@);
    lemma_le_words_len(m.uvs@);
    lemma_le_words_len(m.indices@);
    let l1 = match m.texture_png {
        Some(png) => spec_push_segment(g.layout, png@, None),
        None => g.layout,
    };
    match m.texture_png {
        Some(png) => {
            lemma_push_segment_facts(g.layout, png@, None);
        },
        None => {
            assert(extends(g.layout, l1));
        },
    }
    lemma_pad4_len(l1.bin);
    let a0 = l1.accessors.len() as int;
    let l2 = spec_push_f32(l1, m.positions@, 3);
    lemma_push_f32_facts(l1, m.positions@, 3);
    lemma_pad4_len(l2.bin);
    let l3 = spec_push_f32(l2, m.normals@, 3);
    lemma_push_f32_facts(l2, m.normals@, 3);
    lemma_pad4_len(l3.bin);
    let l4 = spec_push_f32(l3, m.uvs@, 2);
    lemma_push_f32_facts(l3, m.uvs@, 2);
    lemma_pad4_len(l4.bin);
    let l5 = spec_push_u32(l4, m.indices@);
    lemma_push_u32_facts(l4, m.indices@);
    assert(r.layout == l5);
    lemma_extends_trans(l2, l3, l4);
    lemma_extends_trans(l2, l4, l5);
    lemma_extends_trans(l3, l4, l5);
    lemma_extends_trans(l1, l2, l5);
    lemma_extends_trans(g.layout, l1, l5);
    lemma_reads_persist(l2, l5, a0, le_words(m.positions@));
    lemma_reads_persist(l3, l5, a0 + 1, le_words(m.normals@));
    lemma_reads_persist(l4, l5, a0 + 2, le_words(m.uvs@));
    match m.texture_png {
        Some(png) => {
            lemma_view_persists(l1, l5, g.layout.views.len() as int, png@);
        },
        None => {},
    }
}

/// Every mesh of a laid-out sequence reads back as it was given.
proof fn lemma_layout_readback(ms: Seq<MeshBuffers>)
    requires
        layout_cost(ms) + 3 <= usize::MAX,
    ensures
        forall|k: int| 0 <= k < ms.len() ==> #[trigger] mesh_reads_back(spec_layout_meshes(ms), k, ms[k]),
    decreases ms.len(),
{
    if ms.len() > 0 {
        let pre = ms.drop_last();
        lemma_layout_cost_prefix(ms, ms.len() - 1);
        assert(ms.take(ms.len() - 1) =~= pre);
        lemma_layout_readback(pre);
        lemma_layout_sizes(pre);
        lemma_layout_sizes(ms);
        let g = spec_layout_meshes(pre);
        lemma_add_mesh_facts(g, ms.last());
        let g2 = spec_layout_meshes(ms);
        assert forall|k: int| 0 <= k < ms.len() implies #[trigger] mesh_reads_back(g2, k, ms[k]) by {
            if k < pre.len() {
                assert(ms[k] == pre[k]);
                assert(mesh_reads_back(g, k, pre[k]));
                let r = g.refs[k];
                assert(g2.refs[k] == r);
                lemma_reads_persist(g.layout, g2.layout, r.position as int, le_words(pre[k].positions@));
                lemma_reads_persist(g.layout, g2.layout, r.normal as int, le_words(pre[k].normals@));
                lemma_reads_persist(g.layout, g2.layout, r.uv as int, le_words(pre[k].uvs@));
                lemma_reads_persist(g.layout, g2.layout, r.index as int, le_words(pre[k].indices@));
                match pre[k].texture_png {
                    Some(png) => {
                        let t = r.texture->0;
                        assert(g2.images[t as int] == g.images[t as int]);
                        lemma_view_persists(g.layout, g2.layout, g.images[t as int] as int, png@);
                    },
                    None => {},
                }
            }
        }
    }
}

/// Reading the binary chunk of a scene back through its accessors gives
/// every mesh's positions, normals, texture coordinates and indices exactly
/// as they were written, and each texture's image view holds its PNG bytes.
pub proof fn lemma_glb_binary_readback(ms: Seq<MeshBuffers>)
    requires
        layout_cost(ms) + 3 <= usize::MAX,
    ensures
        spec_glb_binary(ms).refs.len() == ms.len(),
        forall|k: int| 0 <= k < ms.len() ==> #[trigger] mesh_reads_back(spec_glb_binary(ms), k, ms[k]),
{
    lemma_layout_readback(ms);
    lemma_layout_sizes(ms);
    let g = spec_layout_meshes(ms);
    let f = spec_glb_binary(ms);
    lemma_pad4_len(g.layout.bin);
    assert(extends(g.layout, f.layout)) by {
        assert forall|i: int| 0 <= i < g.layout.bin.len() implies #[trigger] f.layout.bin[i] == g.layout.bin[i] by {}
    }
    assert forall|k: int| 0 <= k < ms.len() implies #[trigger] mesh_reads_back(f, k, ms[k]) by {
        assert(mesh_reads_back(g, k, ms[k]));
        let r = g.refs[k];
        lemma_reads_persist(g.layout, f.layout, r.position as int, le_words(ms[k].positions@));
        lemma_reads_persist(g.layout, f.layout, r.normal as int, le_words(ms[k].normals@));
        lemma_reads_persist(g.layout, f.layout, r.uv as int, le_words(ms[k].uvs@));
        lemma_reads_persist(g.layout, f.layout, r.index as int, le_words(ms[k].indices@));
        match ms[k].texture_png {
            Some(png) => {
                let t = r.texture->0;
                lemma_view_persists(g.layout, f.layout, g.images[t as int] as int, png@);
            },
            None => {},
        }
    }
}


/// Magic word opening every GLB file ("glTF").
pub const GLB_MAGIC: u32 = 0x4654_6C67;
/// Chunk type of the JSON chunk ("JSON").
pub const CHUNK_JSON: u32 = 0x4E4F_534A;
/// Chunk type of the binary chunk ("BIN\0").
pub const CHUNK_BIN: u32 = 0x004E_4942;

/// The JSON chunk body: the document padded with spaces to a multiple of four.
pub open spec fn json_chunk(json: Seq<u8>) -> Seq<u8> {
    json + spaces(align4_spec(json.len() as int) - json.len())
}

/// Total length of the container.
pub open spec fn glb_total_len(json: Seq<u8>, bin: Seq<u8>) -> int {
    12 + 8 + json_chunk(json).len() as int + 8 + bin.len() as int
}

/// A GLB container: header (magic, version 2, total length), the JSON chunk,
/// then the binary chunk; lengths are written as 32-bit little-endian words.
pub open spec fn glb_container(json: Seq<u8>, bin: Seq<u8>) -> Seq<u8> {
    le32(GLB_MAGIC) + le32(2) + le32(glb_total_len(json, bin) as u32) + le32(
        json_chunk(json).len() as u32,
    ) + le32(CHUNK_JSON) + json_chunk(json) + le32(bin.len() as u32) + le32(CHUNK_BIN) + bin
}

/// Frames a glTF JSON document and its binary buffer as a GLB container.
pub fn frame_glb(json: Vec<u8>, bin: &Vec<u8>) -> (r: Vec<u8>)
    requires
        json@.len() + bin@.len() + 31 <= usize::MAX,
    ensures
        r@ == glb_container(json@, bin@),
{
    let ghost j0 = json@;
    let json_padded_len = align4(json.len());
    let mut json_chunk_bytes = json;
    while json_chunk_bytes.len() < json_padded_len
        invariant
            j0.len() <= json_chunk_bytes@.len() <= json_padded_len,
            json_padded_len == align4_spec(j0.len() as int),
            json_chunk_bytes@ == j0 + spaces(json_chunk_bytes@.len() - j0.len()),
        decreases json_padded_len - json_chunk_bytes@.len(),
    {
        json_chunk_bytes.push(0x20u8);
        assert(json_chunk_bytes@ =~= j0 + spaces(json_chunk_bytes@.len() - j0.len()));
    }
    let total_len = 12 + 8 + json_chunk_bytes.len() + 8 + bin.len();
    let mut out: Vec<u8> = Vec::with_capacity(total_len);
    push_le32(&mut out, GLB_MAGIC);
    push_le32(&mut out, 2u32);
    push_le32(&mut out, total_len as u32);
    push_le32(&mut out, json_chunk_bytes.len() as u32);
    push_le32(&mut out, CHUNK_JSON);
    push_bytes(&mut out, &json_chunk_bytes);
    push_le32(&mut out, bin.len() as u32);
    push_le32(&mut out, CHUNK_BIN);
    push_bytes(&mut out, bin);
    proof {
        assert(json_chunk_bytes@ == json_chunk(j0));
        assert(out@ =~= glb_container(j0, bin@));
    }
    out
}

/// Reading a GLB container back: it starts with "glTF" and version 2, its
/// length field equals its length, the JSON chunk holds the document followed
/// only by spaces, and the binary chunk holds the buffer unchanged.
pub proof fn lemma_glb_container_readback(json: Seq<u8>, bin: Seq<u8>)
    requires
        glb_total_len(json, bin) <= u32::MAX,
    ensures
        ({
            let g = glb_container(json, bin);
            let jl = json_chunk(json).len() as int;
            &&& g.len() == glb_total_len(json, bin)
            &&& g.subrange(0, 4) == seq![0x67u8, 0x6Cu8, 0x54u8, 0x46u8]
            &&& read_le32(g, 4) == 2
            &&& read_le32(g, 8) == g.len()
            &&& read_le32(g, 12) == jl
            &&& jl % 4 == 0
            &&& read_le32(g, 16) == CHUNK_JSON
            &&& g.subrange(20, 20 + json.len() as int) == json
            &&& forall|i: int| 20 + json.len() <= i < 20 + jl ==> g[i] == 0x20u8
            &&& read_le32(g, 20 + jl) == bin.len()
            &&& read_le32(g, 24 + jl) == CHUNK_BIN
            &&& g.subrange(28 + jl, g.len() as int) == bin
        }),
{
    let g = glb_container(json, bin);
    let jc = json_chunk(json);
    let jl = jc.len() as int;
    let total = glb_total_len(json, bin);
    assert(jl == align4_spec(json.len() as int));
    let h0 = le32(GLB_MAGIC);
    let h1 = le32(2);
    let h2 = le32(total as u32);
    let h3 = le32(jl as u32);
    let h4 = le32(CHUNK_JSON);
    let t0 = le32(bin.len() as u32);
    let t1 = le32(CHUNK_BIN);
    assert(g == h0 + h1 + h2 + h3 + h4 + jc + t0 + t1 + bin);
    lemma_le32_roundtrip(2);
    lemma_le32_roundtrip(total as u32);
    lemma_le32_roundtrip(jl as u32);
    lemma_le32_roundtrip(CHUNK_JSON);
    lemma_le32_roundtrip(bin.len() as u32);
    lemma_le32_roundtrip(CHUNK_BIN);
    assert((GLB_MAGIC & 0xff) as u8 == 0x67u8 && ((GLB_MAGIC >> 8u32) & 0xff) as u8 == 0x6Cu8
        && ((GLB_MAGIC >> 16u32) & 0xff) as u8 == 0x54u8 && (GLB_MAGIC >> 24u32) as u8 == 0x46u8)
        by (bit_vector);
    assert(h0 =~= seq![0x67u8, 0x6Cu8, 0x54u8, 0x46u8]);
    assert(g.subrange(0, 4) =~= h0);
    assert(g.subrange(4, 8) =~= h1);
    assert(g.subrange(8, 12) =~= h2);
    assert(g.subrange(12, 16) =~= h3);
    assert(g.subrange(16, 20) =~= h4);
    assert(g.subrange(20, 20 + json.len() as int) =~= json);
    assert(g.subrange(20 + jl, 24 + jl) =~= t0);
    assert(g.subrange(24 + jl, 28 + jl) =~= t1);
    assert(g.subrange(28 + jl, g.len() as int) =~= bin);
    assert forall|at: int| 0 <= at && at + 4 <= g.len() implies read_le32(g, at) == read_le32(
        g.subrange(at, at + 4),
        0,
    ) by {
        let q = g.subrange(at, at + 4);
        assert(q[0] == g[at] && q[1] == g[at + 1] && q[2] == g[at + 2] && q[3] == g[at + 3]);
    }
}

} // verus!
