use openspace::glb::{
    align4, frame_glb, layout_glb_binary, pad_to, push_f32_vec, push_le32, push_u32_accessor, push_words,
    AccessorType, BinaryLayout, MeshBuffers, ARRAY_BUFFER, COMPONENT_FLOAT, COMPONENT_UNSIGNED_INT,
    ELEMENT_ARRAY_BUFFER,
};
use openspace::meshplan::{plan_meshes, quad_indices, slab_mesh_name, ExtrudeOptions, MeshJob, MeshKind};

fn le(v: u32) -> [u8; 4] {
    v.to_le_bytes()
}

fn read32(b: &[u8], at: usize) -> u32 {
    u32::from_le_bytes([b[at], b[at + 1], b[at + 2], b[at + 3]])
}

fn bits(v: &[f32]) -> Vec<u32> {
    v.iter().map(|f| f.to_bits()).collect()
}

#[test]
fn align4_rounds_up() {
    assert_eq!(align4(0), 0);
    assert_eq!(align4(1), 4);
    assert_eq!(align4(4), 4);
    assert_eq!(align4(5), 8);
    assert_eq!(align4(1023), 1024);
}

#[test]
fn pad_to_appends_zeros_only_when_short() {
    let mut b = vec![7u8, 8, 9];
    pad_to(&mut b, 8);
    assert_eq!(b, vec![7, 8, 9, 0, 0, 0, 0, 0]);
    pad_to(&mut b, 4);
    assert_eq!(b.len(), 8);
}

#[test]
fn words_are_little_endian() {
    let mut b = Vec::new();
    push_le32(&mut b, 0x0403_0201);
    assert_eq!(b, vec![1, 2, 3, 4]);
    push_words(&mut b, &vec![0xAABB_CCDD, 5]);
    assert_eq!(b, vec![1, 2, 3, 4, 0xDD, 0xCC, 0xBB, 0xAA, 5, 0, 0, 0]);
}

#[test]
fn accessors_are_aligned_views() {
    let mut l = BinaryLayout { bin: vec![1, 2, 3], views: Vec::new(), accessors: Vec::new() };
    let a = push_f32_vec(&mut l, &bits(&[1.0, 2.0, 3.0, 4.0, 5.0, 6.0]), 3);
    assert_eq!(a, 0);
    assert_eq!(l.views[0].byte_offset, 4);
    assert_eq!(l.views[0].byte_length, 24);
    assert_eq!(l.views[0].target, Some(ARRAY_BUFFER));
    assert_eq!(l.accessors[0].count, 2);
    assert_eq!(l.accessors[0].kind, AccessorType::Vec3);
    assert_eq!(l.accessors[0].component_type, COMPONENT_FLOAT);
    assert_eq!(&l.bin[4..8], &le(1.0f32.to_bits()));
    let b = push_u32_accessor(&mut l, &vec![0, 1, 2]);
    assert_eq!(b, 1);
    assert_eq!(l.views[1].byte_offset, 28);
    assert_eq!(l.views[1].target, Some(ELEMENT_ARRAY_BUFFER));
    assert_eq!(l.accessors[1].count, 3);
    assert_eq!(l.accessors[1].kind, AccessorType::Scalar);
    assert_eq!(l.accessors[1].component_type, COMPONENT_UNSIGNED_INT);
    assert_eq!(l.bin.len(), 40);
}

#[test]
fn glb_frame_header_and_chunks() {
    let json = b"{\"asset\":1}".to_vec();
    let bin = vec![9u8; 8];
    let g = frame_glb(json.clone(), &bin);
    assert_eq!(&g[0..4], b"glTF");
    assert_eq!(read32(&g, 4), 2);
    assert_eq!(read32(&g, 8) as usize, g.len());
    let jl = read32(&g, 12) as usize;
    assert_eq!(jl, 12);
    assert_eq!(&g[16..20], b"JSON");
    assert_eq!(&g[20..20 + json.len()], &json[..]);
    assert_eq!(g[20 + json.len()], b' ');
    assert_eq!(read32(&g, 20 + jl), 8);
    assert_eq!(&g[24 + jl..28 + jl], b"BIN\0");
    assert_eq!(&g[28 + jl..], &bin[..]);
    assert_eq!(g.len(), 12 + 8 + 12 + 8 + 8);
}

fn quad_mesh(texture: Option<Vec<u8>>) -> MeshBuffers {
    MeshBuffers {
        positions: bits(&[0.0, 0.0, 0.0, 1.0, 0.0, 0.0, 1.0, 1.0, 0.0, 0.0, 1.0, 0.0]),
        normals: bits(&[0.0, 0.0, 1.0, 0.0, 0.0, 1.0, 0.0, 0.0, 1.0, 0.0, 0.0, 1.0]),
        uvs: bits(&[0.0, 0.0, 1.0, 0.0, 1.0, 1.0, 0.0, 1.0]),
        indices: quad_indices(1),
        texture_png: texture,
    }
}

#[test]
fn scene_layout_reads_back() {
    let meshes = vec![quad_mesh(Some(vec![0x89, b'P', b'N', b'G', 1])), quad_mesh(None)];
    let g = layout_glb_binary(&meshes);
    assert_eq!(g.meshes.len(), 2);
    assert_eq!(g.image_views.len(), 1);
    assert_eq!(g.layout.bin.len() % 4, 0);
    for (k, m) in meshes.iter().enumerate() {
        let r = g.meshes[k];
        for (acc, data) in [(r.position, &m.positions), (r.normal, &m.normals), (r.uv, &m.uvs), (r.index, &m.indices)] {
            let v = g.layout.views[g.layout.accessors[acc].buffer_view];
            assert_eq!(v.byte_offset % 4, 0);
            let bytes: Vec<u8> = data.iter().flat_map(|w| w.to_le_bytes()).collect();
            assert_eq!(&g.layout.bin[v.byte_offset..v.byte_offset + v.byte_length], &bytes[..]);
        }
        assert_eq!(g.layout.accessors[r.position].count, 4);
        assert_eq!(g.layout.accessors[r.uv].kind, AccessorType::Vec2);
        assert_eq!(g.layout.accessors[r.index].count, 6);
    }
    assert_eq!(g.meshes[0].texture, Some(0));
    assert_eq!(g.meshes[1].texture, None);
    let iv = g.layout.views[g.image_views[0]];
    assert_eq!(&g.layout.bin[iv.byte_offset..iv.byte_offset + iv.byte_length], &[0x89, b'P', b'N', b'G', 1]);
}

#[test]
fn extrude_and_export_glb() {
    let walls: Vec<u128> = vec![1, 2, 3, 4];
    let jobs = plan_meshes(&walls, &vec![], &vec![4], &ExtrudeOptions::default()).unwrap();
    assert!(jobs.len() >= 5);
    assert!(!jobs.iter().any(|j| matches!(j, MeshJob::Ceiling { .. } | MeshJob::BoundsCeiling)));
    let rooms = ["Living"];
    let names: Vec<String> = jobs
        .iter()
        .filter_map(|j| match j {
            MeshJob::Floor { room } => Some(slab_mesh_name(MeshKind::Floor, rooms[*room])),
            MeshJob::Ceiling { room } => Some(slab_mesh_name(MeshKind::Ceiling, rooms[*room])),
            _ => None,
        })
        .collect();
    assert!(names.iter().any(|n| n.contains("Living")));
    assert_eq!(names, vec!["floor-Living".to_string()]);
    let meshes: Vec<MeshBuffers> = jobs.iter().map(|_| quad_mesh(None)).collect();
    let bin = layout_glb_binary(&meshes);
    let glb = frame_glb(b"{\"asset\":{\"version\":\"2.0\"}}".to_vec(), &bin.layout.bin);
    assert!(glb.len() > 100);
    assert_eq!(&glb[0..4], b"glTF");
}
