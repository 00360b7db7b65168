use openspace::blobs::remove_small_blobs;
use openspace::raster::{adaptive_threshold, dilate, erode, simple_edges, wall_mask, GrayGrid};
use openspace::projection::estimate_wall_threshold;

fn grid(w: u32, h: u32, px: &[u8]) -> GrayGrid {
    GrayGrid::from_raw(w, h, px.to_vec()).unwrap()
}

#[test]
fn from_raw_checks_size() {
    assert!(GrayGrid::from_raw(2, 2, vec![0; 3]).is_none());
    let g = GrayGrid::from_raw(2, 2, vec![1, 2, 3, 4]).unwrap();
    assert_eq!(g.get(1, 0), 2);
    assert_eq!(g.get(0, 1), 3);
}

#[test]
fn put_changes_one_pixel() {
    let mut g = GrayGrid::filled(3, 2, 9);
    g.put(2, 1, 1);
    assert_eq!(g.as_raw(), &vec![9, 9, 9, 9, 9, 1]);
}

#[test]
fn dilate_then_erode_single_pixel() {
    let mut px = vec![0u8; 25];
    px[12] = 255;
    let mut g = grid(5, 5, &px);
    dilate(&mut g, 1);
    let expect: Vec<u8> = (0..25)
        .map(|i| {
            let (x, y) = (i % 5, i / 5);
            if (1..=3).contains(&x) && (1..=3).contains(&y) { 255 } else { 0 }
        })
        .collect();
    assert_eq!(g.as_raw(), &expect);
    erode(&mut g, 1);
    assert_eq!(g.as_raw(), &px);
}

#[test]
fn dilate_clips_at_border() {
    let mut g = grid(3, 1, &[0, 0, 7]);
    dilate(&mut g, 1);
    assert_eq!(g.as_raw(), &vec![0, 7, 7]);
    let mut g = grid(3, 1, &[5, 9, 9]);
    erode(&mut g, 1);
    assert_eq!(g.as_raw(), &vec![5, 5, 9]);
}

#[test]
fn wall_mask_marks_dark_pixels() {
    let g = grid(4, 1, &[10, 89, 90, 200]);
    let m = wall_mask(&g, 90);
    assert_eq!(m.as_raw(), &vec![255, 255, 0, 0]);
}

#[test]
fn wall_threshold_estimates() {
    let light = grid(2, 2, &[200, 130, 255, 120]);
    assert_eq!(estimate_wall_threshold(&light), 85);
    let mut px: Vec<u8> = (1..=10).map(|v| v * 10).collect();
    px.extend([200u8, 250]);
    let g = grid(4, 3, &px);
    assert_eq!(estimate_wall_threshold(&g), 95);
    let dark = grid(5, 2, &[0; 10]);
    assert_eq!(estimate_wall_threshold(&dark), 15);
    let mixed = grid(5, 2, &[50, 50, 50, 50, 50, 50, 50, 50, 50, 60]);
    assert_eq!(estimate_wall_threshold(&mixed), 75);
}

#[test]
fn adaptive_threshold_of_uniform_image_is_empty() {
    let g = GrayGrid::filled(6, 6, 128);
    let b = adaptive_threshold(&g);
    assert_eq!(b.as_raw(), &vec![0u8; 36]);
}

#[test]
fn adaptive_threshold_finds_dark_bar() {
    let mut px = vec![255u8; 49];
    for x in 0..7 {
        px[3 * 7 + x] = 0;
    }
    let b = adaptive_threshold(&grid(7, 7, &px));
    for y in 0..7u32 {
        for x in 0..7u32 {
            assert_eq!(b.get(x, y), if y == 3 { 255 } else { 0 });
        }
    }
}

#[test]
fn simple_edges_outline() {
    let mut px = vec![0u8; 36];
    for y in 1..5 {
        for x in 1..5 {
            px[y * 6 + x] = 255;
        }
    }
    let e = simple_edges(&grid(6, 6, &px));
    for y in 0..6u32 {
        for x in 0..6u32 {
            let inner = (2..=3).contains(&x) && (2..=3).contains(&y);
            let on = (1..=4).contains(&x) && (1..=4).contains(&y) && !inner;
            assert_eq!(e.get(x, y), if on { 255 } else { 0 }, "pixel {},{}", x, y);
        }
    }
}

#[test]
fn small_blobs_are_removed() {
    let px = [
        255, 255, 0,   0, 0,   0,
        255, 0,   0,   0, 255, 0,
        0,   255, 0,   0, 255, 0,
        0,   0,   0,   0, 255, 255,
    ];
    let mut g = grid(6, 4, &px);
    remove_small_blobs(&mut g, 4);
    let expect = vec![
        0, 0, 0, 0, 0,   0,
        0, 0, 0, 0, 255, 0,
        0, 0, 0, 0, 255, 0,
        0, 0, 0, 0, 255, 255,
    ];
    assert_eq!(g.as_raw(), &expect);
    let mut g = grid(6, 4, &px);
    remove_small_blobs(&mut g, 2);
    let mut keep = px.to_vec();
    keep[2 * 6 + 1] = 0;
    assert_eq!(g.as_raw(), &keep);
}

#[test]
fn blobs_keep_gray_levels() {
    let mut g = grid(4, 1, &[7, 9, 0, 3]);
    remove_small_blobs(&mut g, 2);
    assert_eq!(g.as_raw(), &vec![7, 9, 0, 0]);
}

#[test]
fn blob_removal_twice_changes_nothing_more() {
    let px = [
        255, 0, 255, 255, 0, 9,
        255, 0, 0, 255, 0, 9,
        0, 0, 0, 0, 0, 0,
        7, 7, 7, 0, 0, 255,
    ];
    let mut g = grid(6, 4, &px);
    remove_small_blobs(&mut g, 3);
    let once = g.as_raw().clone();
    assert_eq!(once, vec![0, 0, 255, 255, 0, 0, 0, 0, 0, 255, 0, 0, 0, 0, 0, 0, 0, 0, 7, 7, 7, 0, 0, 0]);
    remove_small_blobs(&mut g, 3);
    assert_eq!(g.as_raw(), &once);
}
