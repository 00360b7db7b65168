//! The structural wall pass: dark-pixel mask, morphological closing, blob
//! cleanup, then row and column projection peaks.
use vstd::prelude::*;
use crate::raster::{
    GrayGrid, GridView, threshold_below, dilate_spec, erode_spec, dilate, erode, wall_mask, lemma_closing_extensive,
    lemma_grid_from_fn_at, lemma_index,
};
use crate::blobs::{blobs_removed_spec, remove_small_blobs, component_size, is_set, lemma_component_grows};
use crate::lines::PixelSeg;
use crate::error::OpenSpaceError;
use crate::projection::{
    band_segs, peaks_from, row_profile, col_profile, wall_threshold_spec, estimate_wall_threshold,
    projection_horizontal, projection_vertical, count_lt, DARK_LEVEL,
};

verus! {

/// Smallest side, in pixels, of a plan that detection accepts.
pub const MIN_PLAN_SIDE: u32 = 8;

/// Refuses a plan narrower or shorter than [`MIN_PLAN_SIDE`] pixels.
pub fn check_plan_size(width: u32, height: u32) -> (r: Result<(), OpenSpaceError>)
    ensures
        r is Ok <==> width >= MIN_PLAN_SIDE && height >= MIN_PLAN_SIDE,
        r is Err ==> (r matches Err(OpenSpaceError::InvalidFloorplan(m)) && m@ == "image too small"@),
{
    if width < MIN_PLAN_SIDE || height < MIN_PLAN_SIDE {
        Err(OpenSpaceError::InvalidFloorplan(String::from_str("image too small")))
    } else {
        Ok(())
    }
}

/// Smallest side, in pixels, that the structural pass works on.
pub const MIN_STRUCTURAL_SIDE: u32 = 16;

/// The closing radius actually used: the requested one clamped to `2 ..= 6`.
pub open spec fn closing_radius(r: int) -> int {
    if r < 2 {
        2
    } else if r > 6 {
        6
    } else {
        r
    }
}

/// Blobs smaller than this are noise: one two-thousandth of the image, and
/// never less than 80 pixels.
pub open spec fn min_blob_area(w: int, h: int) -> int {
    let a = (w * h) / 2000;
    if a < 80 {
        80
    } else {
        a
    }
}

/// The cleaned wall mask of a plan: dark pixels below the estimated wall
/// threshold, closed with the clamped radius, without small blobs.
pub open spec fn structural_mask_spec(g: GridView, close_r: int) -> GridView {
    let r = closing_radius(close_r);
    let m = threshold_below(g, wall_threshold_spec(g.data) as int);
    blobs_removed_spec(erode_spec(dilate_spec(m, r), r), min_blob_area(g.width, g.height))
}

/// Horizontal then vertical wall candidates of the structural pass; nothing
/// for a plan narrower or shorter than [`MIN_STRUCTURAL_SIDE`].
pub open spec fn structural_candidates_spec(
    g: GridView,
    close_r: int,
    band: int,
    min_span_h: int,
    thresh_h: int,
    min_span_v: int,
    thresh_v: int,
) -> Seq<PixelSeg> {
    if g.width < MIN_STRUCTURAL_SIDE || g.height < MIN_STRUCTURAL_SIDE {
        Seq::empty()
    } else {
        let m = structural_mask_spec(g, close_r);
        band_segs(m, peaks_from(row_profile(m), thresh_h, 0, None), min_span_h, band, true) + band_segs(
            m,
            peaks_from(col_profile(m), thresh_v, 0, None),
            min_span_v,
            band,
            false,
        )
    }
}

/// Runs the structural pass on a grayscale plan and returns the raw wall
/// candidates (horizontal ones first), before any merging.
pub fn structural_candidates(
    gray: &GrayGrid,
    close_r: i32,
    band: u32,
    min_span_h: u32,
    thresh_h: u32,
    min_span_v: u32,
    thresh_v: u32,
) -> (segs: Vec<PixelSeg>)
    requires
        gray@.wf(),
        gray@.width * gray@.height <= u32::MAX,
        9 * count_lt(gray@.data, DARK_LEVEL as int) <= usize::MAX,
        gray@.width + band <= u32::MAX,
        gray@.height + band <= u32::MAX,
    ensures
        segs@ == structural_candidates_spec(
            gray@,
            close_r as int,
            band as int,
            min_span_h as int,
            thresh_h as int,
            min_span_v as int,
            thresh_v as int,
        ),
{
    let w = gray.width();
    let h = gray.height();
    if w < MIN_STRUCTURAL_SIDE || h < MIN_STRUCTURAL_SIDE {
        return Vec::new();
    }
    let t = estimate_wall_threshold(gray);
    let mut mask = wall_mask(gray, t);
    let r: i32 = if close_r < 2 {
        2
    } else if close_r > 6 {
        6
    } else {
        close_r
    };
    dilate(&mut mask, r);
    erode(&mut mask, r);
    let area = w * h / 2000;
    let min_area: u32 = if area < 80 {
        80
    } else {
        area
    };
    remove_small_blobs(&mut mask, min_area);
    let mut segs = projection_horizontal(&mask, min_span_h, thresh_h, band);
    let mut vert = projection_vertical(&mask, min_span_v, thresh_v, band);
    segs.append(&mut vert);
    segs
}

/// The cleaned wall mask keeps every dark blob that is large enough: a pixel
/// darker than the estimated wall threshold whose blob of dark pixels has at
/// least [`min_blob_area`] pixels is set in the mask, whatever the closing
/// radius. (The closing only adds pixels, so no thin wall is eroded away.)
pub proof fn lemma_structural_mask_keeps_dark_blobs(g: GridView, close_r: int, x: int, y: int)
    requires
        g.wf(),
        g.inside(x, y),
        g.at(x, y) < wall_threshold_spec(g.data),
        component_size(threshold_below(g, wall_threshold_spec(g.data) as int), x, y) >= min_blob_area(
            g.width,
            g.height,
        ),
    ensures
        structural_mask_spec(g, close_r).at(x, y) != 0,
{
    let t = wall_threshold_spec(g.data) as int;
    let m = threshold_below(g, t);
    let r = closing_radius(close_r);
    let c = erode_spec(dilate_spec(m, r), r);
    let area = min_blob_area(g.width, g.height);
    assert forall|a: int, b: int| is_set(m, a, b) implies #[trigger] is_set(c, a, b) by {
        lemma_closing_extensive(m, r, a, b);
    }
    lemma_component_grows(m, c, x, y);
    lemma_index(g.width, g.height, x, y);
    assert(m.at(x, y) == 255u8);
    lemma_closing_extensive(m, r, x, y);
    lemma_grid_from_fn_at(
        c.width,
        c.height,
        |a: int, b: int|
            if is_set(c, a, b) && component_size(c, a, b) < area {
                0u8
            } else {
                c.at(a, b)
            },
        x,
        y,
    );
}

} // verus!
