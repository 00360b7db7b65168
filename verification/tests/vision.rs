use openspace::draw::synthetic_floorplan;
use openspace::lines::{detect_edge_segments, extract_line_segments, retain_min_length, seg_length, PixelSeg};
use openspace::projection::{
    find_projection_peaks, projection_horizontal, projection_vertical, span_in_col_band, span_in_row_band,
    row_counts, col_counts,
};
use openspace::raster::GrayGrid;
use openspace::structural::{check_plan_size, structural_candidates};
use openspace::error::OpenSpaceError;

#[test]
fn tiny_image_errors() {
    assert!(check_plan_size(4, 4).is_err());
}

#[test]
fn plan_size_limits() {
    assert!(check_plan_size(8, 8).is_ok());
    assert!(check_plan_size(400, 7).is_err());
    match check_plan_size(7, 400) {
        Err(OpenSpaceError::InvalidFloorplan(m)) => assert_eq!(m, "image too small"),
        _ => panic!("expected an invalid floorplan error"),
    }
}

#[test]
fn peaks_pick_first_maximum_of_each_stretch() {
    assert_eq!(find_projection_peaks(&vec![0, 0, 10, 12, 11, 0, 0, 0, 0, 0, 0, 0, 9, 0], 10), vec![3]);
    assert_eq!(find_projection_peaks(&vec![5, 20, 20, 6, 1], 10), vec![1]);
    assert_eq!(find_projection_peaks(&vec![], 10), Vec::<u32>::new());
}

#[test]
fn close_peaks_are_merged() {
    assert_eq!(find_projection_peaks(&vec![10, 0, 0, 0, 10], 10), vec![0]);
    assert_eq!(find_projection_peaks(&vec![10, 0, 0, 0, 0, 0, 0, 10], 10), vec![0, 7]);
    assert_eq!(find_projection_peaks(&vec![10, 0, 0, 0, 0, 0, 10, 0, 0, 0, 0, 0, 0, 10], 10), vec![0, 13]);
}

#[test]
fn peak_stretch_continues_above_half_threshold() {
    assert_eq!(find_projection_peaks(&vec![10, 5, 5, 5, 5, 5, 5, 5, 30, 0], 10), vec![8]);
}

fn mask_with(w: u32, h: u32, set: &[(u32, u32)]) -> GrayGrid {
    let mut g = GrayGrid::new(w, h);
    for &(x, y) in set {
        g.put(x, y, 255);
    }
    g
}

#[test]
fn span_within_row_band() {
    let m = mask_with(6, 5, &[(1, 2), (4, 3)]);
    assert_eq!(span_in_row_band(&m, 2, 1), Some((1, 4)));
    assert_eq!(span_in_row_band(&m, 2, 0), None);
    assert_eq!(span_in_row_band(&m, 0, 0), None);
}

#[test]
fn span_within_col_band() {
    let m = mask_with(5, 6, &[(2, 1), (3, 4)]);
    assert_eq!(span_in_col_band(&m, 2, 1), Some((1, 4)));
    assert_eq!(span_in_col_band(&m, 2, 0), None);
    assert_eq!(span_in_col_band(&m, 9, 3), None);
}

#[test]
fn projections_count_set_pixels() {
    let m = mask_with(4, 3, &[(0, 0), (1, 0), (3, 2)]);
    assert_eq!(row_counts(&m), vec![2, 0, 1]);
    assert_eq!(col_counts(&m), vec![1, 1, 0, 1]);
}

#[test]
fn projection_finds_horizontal_bar() {
    let mut m = GrayGrid::new(40, 20);
    for x in 5..35 {
        m.put(x, 10, 255);
    }
    let segs = projection_horizontal(&m, 10, 20, 2);
    assert_eq!(segs, vec![PixelSeg { x0: 5, y0: 10, x1: 34, y1: 10 }]);
    assert!(projection_horizontal(&m, 40, 20, 2).is_empty());
    assert!(projection_vertical(&m, 1, 2, 2).is_empty());
}

#[test]
fn line_segments_from_runs() {
    let mut e = GrayGrid::new(30, 20);
    for x in 2..20 {
        e.put(x, 3, 255);
    }
    for y in 1..19 {
        e.put(25, y, 255);
    }
    for x in 2..10 {
        e.put(x, 15, 255);
    }
    let segs = extract_line_segments(&e);
    assert_eq!(
        segs,
        vec![PixelSeg { x0: 2, y0: 3, x1: 19, y1: 3 }, PixelSeg { x0: 25, y0: 1, x1: 25, y1: 18 }]
    );
    assert_eq!(seg_length(&segs[0]), 17);
    assert_eq!(retain_min_length(&segs, 17), segs);
    assert_eq!(retain_min_length(&segs, 18), vec![]);
}

#[test]
fn synthetic_plan_has_walls() {
    let img = synthetic_floorplan(400, 300);
    assert_eq!(img.get(0, 0), 255);
    assert_eq!(img.get(40, 40), 0);
    assert_eq!(img.get(200, 100), 0);
    assert_eq!(img.get(100, 150), 0);
    assert_eq!(img.get(300, 200), 255);
}

#[test]
fn edge_segments_on_synthetic_plan() {
    let img = synthetic_floorplan(400, 300);
    let segs = detect_edge_segments(&img, 20);
    assert!(segs.len() >= 4, "expected >=4 segments, got {}", segs.len());
    assert!(segs.iter().all(|s| seg_length(s) >= 20));
    assert!(segs.iter().all(|s| s.x0 == s.x1 || s.y0 == s.y1));
}

#[test]
fn structural_candidates_on_synthetic_plan() {
    let img = synthetic_floorplan(400, 300);
    let segs = structural_candidates(&img, 2, 3, 40, 48, 30, 36);
    assert!(segs.iter().any(|s| s.y0 == s.y1), "no horizontal wall in {:?}", segs);
    assert!(segs.iter().any(|s| s.x0 == s.x1), "no vertical wall in {:?}", segs);
    assert!(segs.len() >= 4, "expected >=4 candidates, got {:?}", segs);
}

#[test]
fn structural_pass_skips_small_plans() {
    let img = GrayGrid::filled(15, 40, 0);
    assert!(structural_candidates(&img, 2, 3, 1, 1, 1, 1).is_empty());
}
