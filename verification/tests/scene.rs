use openspace::error::OpenSpaceError;
use openspace::naming::{is_blank_str, project_name, stored_file_name};
use openspace::floorplan::{contains_id, find_room_by_name, openings_to_keep, room_id_for_name};
use openspace::meshplan::{
    fan_indices, find_first_index, opening_indices, plan_meshes, quad_indices, wall_indices, ExtrudeOptions,
    MeshJob, MeshKind,
};
use openspace::texture::{blend_swatch, center_channel_sums, make_swatch_png, texture_rule, TextureRule};

#[test]
fn empty_ir_fails() {
    let r = plan_meshes(&vec![], &vec![], &vec![], &ExtrudeOptions::default());
    assert!(r.is_err());
    match r {
        Err(OpenSpaceError::InvalidFloorplan(m)) => assert_eq!(m, "empty IR: add walls or rooms before build"),
        _ => panic!("expected an invalid floorplan error"),
    }
}

#[test]
fn mesh_plan_order() {
    let walls: Vec<u128> = vec![10, 20, 30];
    let openings: Vec<u128> = vec![20, 99, 10];
    let opts = ExtrudeOptions { include_ceiling: true, cap_wall_tops: false };
    let jobs = plan_meshes(&walls, &openings, &vec![4, 2], &opts).unwrap();
    assert_eq!(
        jobs,
        vec![
            MeshJob::Wall { wall: 0 },
            MeshJob::Wall { wall: 1 },
            MeshJob::Wall { wall: 2 },
            MeshJob::Opening { opening: 0, wall: 1 },
            MeshJob::Opening { opening: 2, wall: 0 },
            MeshJob::Floor { room: 0 },
            MeshJob::Ceiling { room: 0 },
        ]
    );
}

#[test]
fn walls_without_rooms_get_bounding_slab() {
    let walls: Vec<u128> = vec![1, 2];
    let jobs = plan_meshes(&walls, &vec![], &vec![], &ExtrudeOptions::default()).unwrap();
    assert_eq!(jobs, vec![MeshJob::Wall { wall: 0 }, MeshJob::Wall { wall: 1 }, MeshJob::BoundsFloor]);
    let opts = ExtrudeOptions { include_ceiling: true, cap_wall_tops: true };
    let jobs = plan_meshes(&walls, &vec![], &vec![], &opts).unwrap();
    assert_eq!(jobs.len(), 4);
    assert_eq!(jobs[3], MeshJob::BoundsCeiling);
    let rooms_only = plan_meshes(&vec![], &vec![], &vec![3], &ExtrudeOptions::default()).unwrap();
    assert_eq!(rooms_only, vec![MeshJob::Floor { room: 0 }]);
}

#[test]
fn default_options_are_open_top() {
    let o = ExtrudeOptions::default();
    assert!(!o.include_ceiling);
    assert!(!o.cap_wall_tops);
}

#[test]
fn quad_and_box_indices() {
    assert_eq!(quad_indices(2), vec![0, 1, 2, 0, 2, 3, 4, 5, 6, 4, 6, 7]);
    assert_eq!(wall_indices(false).len(), 30);
    assert_eq!(wall_indices(true).len(), 36);
    assert_eq!(*wall_indices(true).iter().max().unwrap(), 23);
    assert_eq!(opening_indices().len(), 24);
}

#[test]
fn fan_triangulation() {
    assert_eq!(fan_indices(4, true), vec![0, 1, 2, 0, 2, 3]);
    assert_eq!(fan_indices(4, false), vec![0, 2, 1, 0, 3, 2]);
    assert_eq!(fan_indices(2, true), Vec::<u32>::new());
    assert_eq!(fan_indices(1, true), Vec::<u32>::new());
}

#[test]
fn first_index_of_id() {
    assert_eq!(find_first_index(&vec![5, 7, 5], 5), Some(0));
    assert_eq!(find_first_index(&vec![5, 7, 5], 7), Some(1));
    assert_eq!(find_first_index(&vec![5, 7, 5], 8), None);
}

#[test]
fn openings_follow_their_walls() {
    assert!(contains_id(&vec![1, 2, 3], 2));
    assert!(!contains_id(&vec![1, 2, 3], 4));
    assert_eq!(openings_to_keep(&vec![3, 9, 1, 3], &vec![1, 3]), vec![0, 2, 3]);
    assert_eq!(openings_to_keep(&vec![9], &vec![]), Vec::<usize>::new());
}

#[test]
fn rooms_found_by_name() {
    let names = vec!["Kitchen".to_string(), "Living".to_string(), "Living".to_string()];
    let ids: Vec<u128> = vec![11, 22, 33];
    assert_eq!(find_room_by_name(&names, "Living"), Some(1));
    assert_eq!(find_room_by_name(&names, "living"), None);
    assert_eq!(room_id_for_name(&names, &ids, "Living"), Some(22));
    assert_eq!(room_id_for_name(&names, &ids, "Bath"), None);
}

#[test]
fn texture_rules() {
    assert_eq!(texture_rule(MeshKind::Wall, None, false, true), TextureRule::TintFromAnyPhoto);
    assert_eq!(texture_rule(MeshKind::Wall, None, false, false), TextureRule::Keep);
    assert_eq!(texture_rule(MeshKind::Floor, None, false, true), TextureRule::Keep);
    assert_eq!(texture_rule(MeshKind::Floor, Some(1), true, true), TextureRule::RoomFloor);
    assert_eq!(texture_rule(MeshKind::Ceiling, Some(1), true, true), TextureRule::RoomCeiling);
    assert_eq!(texture_rule(MeshKind::OpeningFrame, Some(1), true, true), TextureRule::RoomWall);
    assert_eq!(texture_rule(MeshKind::Wall, Some(1), false, true), TextureRule::Keep);
}

#[test]
fn swatch_blend_averages_with_tint() {
    let px = vec![200u8, 60, 61, 17, 0, 255, 1, 255];
    assert_eq!(blend_swatch(&px, (100, 100, 100)), vec![150, 80, 80, 255, 50, 177, 50, 255]);
}

#[test]
fn center_sums_cover_middle_half() {
    // 4x4 RGB image; the centre is columns 1..3, rows 1..3.
    let mut rgb = vec![0u8; 48];
    for y in 0..4usize {
        for x in 0..4usize {
            let i = 3 * (y * 4 + x);
            rgb[i] = (10 * x + y) as u8;
            rgb[i + 1] = 1;
            rgb[i + 2] = if (1..3).contains(&x) && (1..3).contains(&y) { 100 } else { 0 };
        }
    }
    let s = center_channel_sums(&rgb, 4, 4);
    assert_eq!(s.n, 4);
    assert_eq!(s.r, (11 + 12 + 21 + 22) as u64);
    assert_eq!(s.g, 4);
    assert_eq!(s.b, 400);
    let empty = center_channel_sums(&vec![0u8; 3], 1, 1);
    assert_eq!(empty.n, 0);
}

#[test]
fn swatch_png_is_tinted_photo() {
    let photo: Vec<u8> = (0..8 * 8).flat_map(|_| [200u8, 60, 60, 255]).collect();
    let png = make_swatch_png(&photo, 8, 8, (100, 100, 100), 4).unwrap();
    assert_eq!(&png[0..8], &[0x89, b'P', b'N', b'G', 0x0D, 0x0A, 0x1A, 0x0A]);
    let img = image::load_from_memory(&png).unwrap().to_rgba8();
    assert_eq!(img.dimensions(), (4, 4));
    for p in img.pixels() {
        assert_eq!(p.0, [150, 80, 80, 255]);
    }
}

#[test]
fn empty_swatch_is_refused() {
    let photo: Vec<u8> = vec![10, 20, 30, 255];
    assert!(matches!(make_swatch_png(&photo, 1, 1, (0, 0, 0), 0), Err(OpenSpaceError::Io(_))));
    assert!(make_swatch_png(&photo, 1, 1, (0, 0, 0), 1).is_ok());
}

#[test]
fn upload_names() {
    let fields = |v: &[&str]| v.iter().map(|s| s.to_string()).collect::<Vec<String>>();
    assert_eq!(project_name(&fields(&[])), "Untitled");
    assert_eq!(project_name(&fields(&["Flat 3"])), "Flat 3");
    assert_eq!(project_name(&fields(&["  \t\n"])), "Untitled");
    assert_eq!(project_name(&fields(&["\u{3000}\u{a0}"])), "Untitled");
    assert_eq!(project_name(&fields(&["Loft", " "])), "Loft");
    assert_eq!(project_name(&fields(&["Loft", " Attic "])), " Attic ");
    assert_eq!(stored_file_name("floorplan", Some("jpg"), "png"), "floorplan.jpg");
    assert_eq!(stored_file_name("floorplan", None, "png"), "floorplan.png");
    assert_eq!(stored_file_name("photos/abc", None, "jpg"), "photos/abc.jpg");
}

#[test]
fn blank_matches_std_whitespace() {
    for c in ['\t', '\n', '\u{b}', '\u{c}', '\r', ' ', '\u{85}', '\u{a0}', '\u{1680}', '\u{2000}', '\u{200a}',
        '\u{2028}', '\u{2029}', '\u{202f}', '\u{205f}', '\u{3000}', 'a', '\u{200b}', '\u{180e}', '\u{feff}', '_']
    {
        let s = c.to_string();
        assert_eq!(is_blank_str(&s), s.trim().is_empty(), "char {:?}", c);
    }
    assert!(is_blank_str(""));
}
