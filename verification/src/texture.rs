//! Photo-derived materials: mean color of a photo's center, texture swatches,
//! and which meshes take a room's photo color.
use vstd::prelude::*;
use image::ImageEncoder;
use crate::error::OpenSpaceError;
use crate::meshplan::MeshKind;
use crate::raster::lemma_index;

verus! {

#[verifier::external_type_specification]
#[verifier::external_body]
pub struct ExImageError(image::ImageError);

/// The PNG file the `image` crate's encoder writes for an RGBA8 image of the
/// given size (default compression, adaptive filtering).
pub uninterp spec fn png_rgba8(pixels: Seq<u8>, width: u32, height: u32) -> Seq<u8>;

/// The RGBA8 pixels of an image resized with the `image` crate's triangle
/// (bilinear) filter.
pub uninterp spec fn triangle_resize_rgba8(pixels: Seq<u8>, width: u32, height: u32, nwidth: u32, nheight: u32) -> Seq<u8>;

/// `image::codecs::png::PngEncoder::write_image` on an in-memory buffer, for
/// 8-bit RGBA pixels. Claimed: the bytes written are the (deterministic)
/// encoding named [`png_rgba8`]; the encoder refuses a zero width or height
/// (png's header check), and otherwise succeeds for an image whose pixel data
/// is at most 1 GiB (RGBA8 is a valid colour combination, the buffer length
/// is fixed by the precondition, image data is split into chunks below the
/// chunk size limit, and writing into a `Vec` does not fail). Nothing is
/// claimed about which error comes back.
#[verifier::external_body]
fn encode_png_rgba8(pixels: &Vec<u8>, width: u32, height: u32) -> (r: Result<Vec<u8>, image::ImageError>)
    requires
        pixels@.len() == 4 * width * height,
    ensures
        r matches Ok(bytes) ==> bytes@ == png_rgba8(pixels@, width, height),
        width == 0 || height == 0 ==> r is Err,
        width >= 1 && height >= 1 && 4 * width * height <= 0x4000_0000 ==> r is Ok,
{
    let mut out: Vec<u8> = Vec::new();
    let enc = image::codecs::png::PngEncoder::new(&mut out);
    match enc.write_image(pixels.as_slice(), width, height, image::ExtendedColorType::Rgba8) {
        Ok(()) => Ok(out),
        Err(e) => Err(e),
    }
}

/// `image::imageops::resize` with `FilterType::Triangle` on an RGBA8 buffer.
/// Claimed: the result is the resize named [`triangle_resize_rgba8`], and it
/// holds `nwidth × nheight` pixels of four bytes (the function always
/// returns a buffer of the requested size). The resize allocates an
/// intermediate `width × nheight` buffer of four floats per pixel and the
/// result; their lengths must fit in `usize`.
#[verifier::external_body]
fn resize_rgba8(pixels: &Vec<u8>, width: u32, height: u32, nwidth: u32, nheight: u32) -> (r: Vec<u8>)
    requires
        pixels@.len() == 4 * width * height,
        4 * width * nheight <= usize::MAX,
        4 * nwidth * nheight <= usize::MAX,
    ensures
        r@ == triangle_resize_rgba8(pixels@, width, height, nwidth, nheight),
        r@.len() == 4 * nwidth * nheight,
{
    let src: image::RgbaImage = image::ImageBuffer::from_raw(width, height, pixels.clone()).unwrap();
    image::imageops::resize(&src, nwidth, nheight, image::imageops::FilterType::Triangle).into_raw()
}

/// The display text of an `image` crate error (`ToString` on
/// `image::ImageError`); nothing is claimed about the text.
#[verifier::external_body]
fn image_error_text(e: &image::ImageError) -> String {
    e.to_string()
}

/// Each pixel of a resized photo averaged with the tint color, fully opaque.
pub open spec fn blend_spec(pixels: Seq<u8>, tint: (u8, u8, u8)) -> Seq<u8> {
    Seq::new(
        pixels.len(),
        |i: int|
            if i % 4 == 0 {
                ((pixels[i] + tint.0) / 2) as u8
            } else if i % 4 == 1 {
                ((pixels[i] + tint.1) / 2) as u8
            } else if i % 4 == 2 {
                ((pixels[i] + tint.2) / 2) as u8
            } else {
                255u8
            },
    )
}

/// Averages every pixel of an RGBA8 buffer with the tint color and makes it opaque.
pub fn blend_swatch(pixels: &Vec<u8>, tint: (u8, u8, u8)) -> (r: Vec<u8>)
    ensures
        r@ == blend_spec(pixels@, tint),
{
    let mut out: Vec<u8> = Vec::with_capacity(pixels.len());
    let mut i: usize = 0;
    while i < pixels.len()
        invariant
            i <= pixels@.len(),
            out@ == blend_spec(pixels@, tint).take(i as int),
        decreases pixels@.len() - i,
    {
        let v: u8 = if i % 4 == 0 {
            ((pixels[i] as u16 + tint.0 as u16) / 2) as u8
        } else if i % 4 == 1 {
            ((pixels[i] as u16 + tint.1 as u16) / 2) as u8
        } else if i % 4 == 2 {
            ((pixels[i] as u16 + tint.2 as u16) / 2) as u8
        } else {
            255
        };
        out.push(v);
        proof {
            assert(out@ =~= blend_spec(pixels@, tint).take(i as int + 1));
        }
        i = i + 1;
    }
    proof {
        assert(blend_spec(pixels@, tint).take(pixels@.len() as int) =~= blend_spec(pixels@, tint));
    }
    out
}

/// A `size × size` PNG swatch for a room: the photo resized to the swatch
/// size, each pixel averaged with the photo's dominant color `tint`. A zero
/// size is refused; any other swatch of at most 1 GiB of pixels is produced.
pub fn make_swatch_png(
    photo: &Vec<u8>,
    width: u32,
    height: u32,
    tint: (u8, u8, u8),
    size: u32,
) -> (r: Result<Vec<u8>, OpenSpaceError>)
    requires
        photo@.len() == 4 * width * height,
        4 * width * size <= usize::MAX,
        4 * size * size <= usize::MAX,
    ensures
        r matches Ok(png) ==> png@ == png_rgba8(
            blend_spec(triangle_resize_rgba8(photo@, width, height, size, size), tint),
            size,
            size,
        ),
        r matches Err(e) ==> e is Io,
        size == 0 ==> r is Err,
        size >= 1 && 4 * size * size <= 0x4000_0000 ==> r is Ok,
{
    let resized = resize_rgba8(photo, width, height, size, size);
    let blended = blend_swatch(&resized, tint);
    match encode_png_rgba8(&blended, size, size) {
        Ok(png) => Ok(png),
        Err(e) => Err(OpenSpaceError::Io(image_error_text(&e))),
    }
}


/// Channel `c` of pixel `(x, y)` of an RGB8 image `w` pixels wide.
pub open spec fn rgb_at(px: Seq<u8>, w: int, x: int, y: int, c: int) -> int {
    px[3 * (y * w + x) + c] as int
}

/// Sum of channel `c` over pixels `x0 <= x' < x` of row `y`.
pub open spec fn row_channel_sum(px: Seq<u8>, w: int, y: int, x0: int, x: int, c: int) -> int
    decreases x - x0,
{
    if x <= x0 {
        0
    } else {
        row_channel_sum(px, w, y, x0, x - 1, c) + rgb_at(px, w, x - 1, y, c)
    }
}

/// Sum of channel `c` over the rectangle `[x0, x1) × [y0, y)`.
pub open spec fn region_channel_sum(px: Seq<u8>, w: int, x0: int, x1: int, y0: int, y: int, c: int) -> int
    decreases y - y0,
{
    if y <= y0 {
        0
    } else {
        region_channel_sum(px, w, x0, x1, y0, y - 1, c) + row_channel_sum(px, w, y - 1, x0, x1, c)
    }
}

/// Channel totals over the central half of a photo.
#[derive(Debug, Clone, Copy, PartialEq, Eq, Structural)]
pub struct ChannelSums {
    pub r: u64,
    pub g: u64,
    pub b: u64,
    /// Number of pixels summed.
    pub n: u64,
}

proof fn lemma_row_sum_bound(px: Seq<u8>, w: int, y: int, x0: int, x: int, c: int)
    ensures
        0 <= row_channel_sum(px, w, y, x0, x, c) <= 255 * (if x >= x0 { x - x0 } else { 0 }),
    decreases x - x0,
{
    if x > x0 {
        lemma_row_sum_bound(px, w, y, x0, x - 1, c);
    }
}

proof fn lemma_region_sum_bound(px: Seq<u8>, w: int, x0: int, x1: int, y0: int, y: int, c: int)
    requires
        x0 <= x1,
    ensures
        0 <= region_channel_sum(px, w, x0, x1, y0, y, c) <= 255 * (x1 - x0) * (if y >= y0 { y - y0 } else { 0 }),
    decreases y - y0,
{
    if y > y0 {
        lemma_region_sum_bound(px, w, x0, x1, y0, y - 1, c);
        lemma_row_sum_bound(px, w, y - 1, x0, x1, c);
        assert(255 * (x1 - x0) * (y - 1 - y0) + 255 * (x1 - x0) == 255 * (x1 - x0) * (y - y0)) by (nonlinear_arith);
    }
}

/// Totals of the red, green and blue channels over the central half of an
/// RGB8 photo (columns `w/4 .. 3w/4`, rows `h/4 .. 3h/4`), with the pixel count.
pub fn center_channel_sums(rgb: &Vec<u8>, w: u32, h: u32) -> (s: ChannelSums)
    requires
        rgb@.len() == 3 * w * h,
        3 * w <= u32::MAX,
        3 * h <= u32::MAX,
        255 * w * h <= u64::MAX,
    ensures
        s.n == (3 * w / 4 - w / 4) * (3 * h / 4 - h / 4),
        s.r == region_channel_sum(rgb@, w as int, w as int / 4, 3 * w as int / 4, h as int / 4, 3 * h as int / 4, 0),
        s.g == region_channel_sum(rgb@, w as int, w as int / 4, 3 * w as int / 4, h as int / 4, 3 * h as int / 4, 1),
        s.b == region_channel_sum(rgb@, w as int, w as int / 4, 3 * w as int / 4, h as int / 4, 3 * h as int / 4, 2),
{
    let x0 = w / 4;
    let y0 = h / 4;
    let x1 = w * 3 / 4;
    let y1 = h * 3 / 4;
    let ghost px = rgb@;
    let len = rgb.len();
    let mut r: u64 = 0;
    let mut g: u64 = 0;
    let mut b: u64 = 0;
    let mut n: u64 = 0;
    let mut y = y0;
    proof {
        assert((x1 - x0) * (y1 - y0) <= w * h) by (nonlinear_arith)
            requires
                0 <= x1 - x0 <= w,
                0 <= y1 - y0 <= h,
        ;
    }
    while y < y1
        invariant
            px == rgb@,
            px.len() == 3 * w * h,
            len == px.len(),
            255 * w * h <= u64::MAX,
            x0 == w / 4,
            x1 == 3 * w / 4,
            y0 == h / 4,
            y1 == 3 * h / 4,
            (x1 - x0) * (y1 - y0) <= w * h,
            y0 <= y <= y1,
            n == (x1 - x0) * (y - y0),
            r == region_channel_sum(px, w as int, x0 as int, x1 as int, y0 as int, y as int, 0),
            g == region_channel_sum(px, w as int, x0 as int, x1 as int, y0 as int, y as int, 1),
            b == region_channel_sum(px, w as int, x0 as int, x1 as int, y0 as int, y as int, 2),
        decreases y1 - y,
    {
        assert(w * h <= u64::MAX) by (nonlinear_arith)
            requires
                255 * w * h <= u64::MAX,
        ;
        let mut x = x0;
        let ghost r_row = r;
        let ghost g_row = g;
        let ghost b_row = b;
        let ghost n_row = n;
        proof {
            assert((x1 - x0) * (y - y0) + (x1 - x0) <= (x1 - x0) * (y1 - y0)) by (nonlinear_arith)
                requires
                    y < y1,
                    x0 <= x1,
            ;
            lemma_region_sum_bound(px, w as int, x0 as int, x1 as int, y0 as int, y as int + 1, 0);
            lemma_region_sum_bound(px, w as int, x0 as int, x1 as int, y0 as int, y as int + 1, 1);
            lemma_region_sum_bound(px, w as int, x0 as int, x1 as int, y0 as int, y as int + 1, 2);
            assert((x1 - x0) * (y + 1 - y0) <= w * h) by (nonlinear_arith)
                requires
                    (x1 - x0) * (y - y0) + (x1 - x0) <= (x1 - x0) * (y1 - y0),
                    (x1 - x0) * (y1 - y0) <= w * h,
            ;
            assert(255 * (x1 - x0) * (y + 1 - y0) <= 255 * w * h) by (nonlinear_arith)
                requires
                    (x1 - x0) * (y + 1 - y0) <= w * h,
            ;
        }
        while x < x1
            invariant
                px == rgb@,
                px.len() == 3 * w * h,
                len == px.len(),
                255 * w * h <= u64::MAX,
                x0 == w / 4,
                x1 == 3 * w / 4,
                y0 <= y < y1,
                y1 == 3 * h / 4,
                x0 <= x <= x1,
                (x1 - x0) * (y - y0) + (x1 - x0) <= w * h,
                w * h <= u64::MAX,
                255 * (x1 - x0) * (y + 1 - y0) <= 255 * w * h,
                n == n_row + (x - x0),
                n_row == (x1 - x0) * (y - y0),
                r == r_row + row_channel_sum(px, w as int, y as int, x0 as int, x as int, 0),
                g == g_row + row_channel_sum(px, w as int, y as int, x0 as int, x as int, 1),
                b == b_row + row_channel_sum(px, w as int, y as int, x0 as int, x as int, 2),
                r_row == region_channel_sum(px, w as int, x0 as int, x1 as int, y0 as int, y as int, 0),
                g_row == region_channel_sum(px, w as int, x0 as int, x1 as int, y0 as int, y as int, 1),
                b_row == region_channel_sum(px, w as int, x0 as int, x1 as int, y0 as int, y as int, 2),
                region_channel_sum(px, w as int, x0 as int, x1 as int, y0 as int, y as int + 1, 0) <= 255 * w * h,
                region_channel_sum(px, w as int, x0 as int, x1 as int, y0 as int, y as int + 1, 1) <= 255 * w * h,
                region_channel_sum(px, w as int, x0 as int, x1 as int, y0 as int, y as int + 1, 2) <= 255 * w * h,
            decreases x1 - x,
        {
            proof {
                lemma_index(w as int, h as int, x as int, y as int);
                lemma_row_sum_bound(px, w as int, y as int, x0 as int, x as int + 1, 0);
                lemma_row_sum_bound(px, w as int, y as int, x0 as int, x as int + 1, 1);
                lemma_row_sum_bound(px, w as int, y as int, x0 as int, x as int + 1, 2);
                lemma_row_prefix_le(px, w as int, y as int, x0 as int, x as int + 1, x1 as int, 0);
                lemma_row_prefix_le(px, w as int, y as int, x0 as int, x as int + 1, x1 as int, 1);
                lemma_row_prefix_le(px, w as int, y as int, x0 as int, x as int + 1, x1 as int, 2);
            }
            assert(3 * ((y as int) * (w as int) + (x as int)) + 2 < len) by (nonlinear_arith)
                requires
                    (y as int) * (w as int) + (x as int) < (w as int) * (h as int),
                    len == 3 * w * h,
            ;
            let i = 3 * (y as usize * w as usize + x as usize);
            r = r + rgb[i] as u64;
            g = g + rgb[i + 1] as u64;
            b = b + rgb[i + 2] as u64;
            n = n + 1;
            x = x + 1;
        }
        assert(n == (x1 - x0) * (y + 1 - y0)) by (nonlinear_arith)
            requires
                n == n_row + (x1 - x0),
                n_row == (x1 - x0) * (y - y0),
        ;
        y = y + 1;
    }
    ChannelSums { r, g, b, n }
}

proof fn lemma_row_prefix_le(px: Seq<u8>, w: int, y: int, x0: int, x: int, x1: int, c: int)
    requires
        x0 <= x <= x1,
    ensures
        row_channel_sum(px, w, y, x0, x, c) <= row_channel_sum(px, w, y, x0, x1, c),
    decreases x1 - x,
{
    if x < x1 {
        lemma_row_prefix_le(px, w, y, x0, x + 1, x1, c);
    }
}

/// How a mesh takes its color from the room photos.
#[derive(Debug, Clone, Copy, PartialEq, Eq, Structural)]
pub enum TextureRule {
    /// Unchanged.
    Keep,
    /// A wall outside any room, tinted towards some photo's color.
    TintFromAnyPhoto,
    /// A floor taking its room's photo color and swatch.
    RoomFloor,
    /// A ceiling lightened from its room's photo color.
    RoomCeiling,
    /// A wall or opening frame of a room, lightened from its photo color.
    RoomWall,
}

/// Chooses how a mesh is colored: meshes outside rooms are tinted only when
/// they are walls and some photo gave a color; room meshes follow their
/// room's photo color when it has one.
pub fn texture_rule(kind: MeshKind, room_id: Option<u128>, room_has_color: bool, any_color: bool) -> (r: TextureRule)
    ensures
        room_id is None ==> r == (if kind == MeshKind::Wall && any_color {
            TextureRule::TintFromAnyPhoto
        } else {
            TextureRule::Keep
        }),
        room_id is Some ==> r == (if !room_has_color {
            TextureRule::Keep
        } else if kind == MeshKind::Floor {
            TextureRule::RoomFloor
        } else if kind == MeshKind::Ceiling {
            TextureRule::RoomCeiling
        } else {
            TextureRule::RoomWall
        }),
{
    match room_id {
        None => {
            if matches!(kind, MeshKind::Wall) && any_color {
                TextureRule::TintFromAnyPhoto
            } else {
                TextureRule::Keep
            }
        },
        Some(_) => {
            if !room_has_color {
                TextureRule::Keep
            } else {
                match kind {
                    MeshKind::Floor => TextureRule::RoomFloor,
                    MeshKind::Ceiling => TextureRule::RoomCeiling,
                    MeshKind::Wall | MeshKind::OpeningFrame => TextureRule::RoomWall,
                }
            }
        },
    }
}

/// Channel `c` (0 red, 1 green, 2 blue) of an RGB colour.
pub open spec fn rgb_channel(t: (u8, u8, u8), c: int) -> int {
    if c == 0 {
        t.0 as int
    } else if c == 1 {
        t.1 as int
    } else {
        t.2 as int
    }
}

/// `v` lies between `a` and `b`.
pub open spec fn between_values(v: int, a: int, b: int) -> bool {
    (a <= v <= b) || (b <= v <= a)
}

/// Blending works channel by channel: each red, green and blue byte of the
/// result lies between the photo's byte and the same channel of the tint,
/// within half a level of their mean, and every alpha byte is opaque. So a
/// photo painted in the tint colour blends to itself.
pub proof fn lemma_blend_channelwise(pixels: Seq<u8>, tint: (u8, u8, u8))
    ensures
        blend_spec(pixels, tint).len() == pixels.len(),
        forall|i: int|
            0 <= i < pixels.len() && i % 4 < 3 ==> {
                let v = #[trigger] blend_spec(pixels, tint)[i] as int;
                let p = pixels[i] as int;
                let t = rgb_channel(tint, i % 4);
                &&& between_values(v, p, t)
                &&& p + t - 1 <= 2 * v <= p + t
            },
        forall|i: int| 0 <= i < pixels.len() && i % 4 == 3 ==> #[trigger] blend_spec(pixels, tint)[i] == 255u8,
        (forall|i: int|
            0 <= i < pixels.len() ==> (if i % 4 < 3 {
                #[trigger] pixels[i] as int == rgb_channel(tint, i % 4)
            } else {
                pixels[i] == 255u8
            })) ==> blend_spec(pixels, tint) == pixels,
{
    let b = blend_spec(pixels, tint);
    assert forall|i: int| 0 <= i < pixels.len() && i % 4 < 3 implies {
        let v = #[trigger] b[i] as int;
        let p = pixels[i] as int;
        let t = rgb_channel(tint, i % 4);
        &&& between_values(v, p, t)
        &&& p + t - 1 <= 2 * v <= p + t
    } by {
        let p = pixels[i] as int;
        let t = rgb_channel(tint, i % 4);
        assert(b[i] as int == (p + t) / 2);
    }
    if forall|i: int|
        0 <= i < pixels.len() ==> (if i % 4 < 3 {
            #[trigger] pixels[i] as int == rgb_channel(tint, i % 4)
        } else {
            pixels[i] == 255u8
        }) {
        assert forall|i: int| 0 <= i < pixels.len() implies b[i] == pixels[i] by {
            if i % 4 < 3 {
                assert(pixels[i] as int == rgb_channel(tint, i % 4));
                assert(b[i] as int == (pixels[i] as int + rgb_channel(tint, i % 4)) / 2);
            } else {
                assert(pixels[i] == 255u8);
            }
        }
        assert(b =~= pixels);
    }
}

} // verus!
