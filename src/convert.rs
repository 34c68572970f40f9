use vstd::prelude::*;

use crate::dither::{
    cell_glyph, encode_frame, encoded_frame, frame_char, lemma_cell_glyph_in_ramp, GlyphRamp,
};
use crate::stream::{delim_at, storable};
use vstd::arithmetic::div_mod::{lemma_fundamental_div_mod, lemma_fundamental_div_mod_converse};
use crate::error::FrameError;
use crate::luminance::{luminance_grid, pixel_luminance, samplable, RgbGrid, ONE};

verus! {

/// Width and height of the box that source images are scaled into.
pub const FRAME_SIZE: u32 = 200;

/// Most pixels a frame may have: a full diffusion pass adds at most `ONE`
/// to a cell per visited cell, and must stay within `u64`.
pub const MAX_PIXELS: u64 = 0xffff_ffff_ffff_ffff / ONE - 1;

#[verifier::external_type_specification]
#[verifier::external_body]
pub struct ExDynamicImage(image::DynamicImage);

/// Relies on image's `DynamicImage::resize` (triangle filter, aspect ratio
/// kept), `DynamicImage::into_rgb8` and `ImageBuffer::into_raw`: the scaled
/// image as raw RGB bytes with its dimensions. The scaled size fits the box
/// and is at least one pixel each way (`resize_dimensions` takes the larger
/// of the rounded size and 1), and the buffer holds every pixel (it may be
/// longer when the image was built from a larger buffer and not rescaled).
#[verifier::external_body]
fn scaled_rgb(img: &image::DynamicImage, width: u32, height: u32) -> (r: RgbGrid)
    ensures
        width >= 1 && height >= 1 ==> {
            &&& samplable(&r)
            &&& 1 <= r.width <= width
            &&& 1 <= r.height <= height
        },
{
    let rgb = img.resize(width, height, image::imageops::FilterType::Triangle).into_rgb8();
    let (w, h) = rgb.dimensions();
    RgbGrid { width: w as usize, height: h as usize, data: rgb.into_raw() }
}

/// Whether a ramp holds no line break and no carriage return.
pub open spec fn plain_ramp(ramp: Seq<char>) -> bool {
    forall|i: int| 0 <= i < ramp.len() ==> #[trigger] ramp[i] != '\n' && ramp[i] != '\r'
}

/// Every frame that the encoder writes with a plain ramp can be stored in a
/// stream and read back: it ends with a line break, and holds no blank line
/// and no carriage return.
pub proof fn lemma_encoded_frame_storable(ramp: Seq<char>, c: Seq<int>, w: int, h: int, on: bool)
    requires
        w >= 1,
        h >= 1,
        ramp.len() >= 1,
        plain_ramp(ramp),
        c.len() == w * h,
        forall|i: int| 0 <= i < c.len() ==> #[trigger] c[i] >= 0,
    ensures
        storable(encoded_frame(ramp, c, w, h, on)),
{
    let f = encoded_frame(ramp, c, w, h, on);
    let m = 2 * w + 1;
    assert(h * m >= 3) by (nonlinear_arith)
        requires
            h >= 1,
            m >= 3,
    ;
    assert(f.len() == h * m);
    // A character is a line break exactly at the end of a row.
    assert forall|j: int| 0 <= j < f.len() implies (#[trigger] f[j] == '\n') == (j % m == 2 * w) && f[j]
        != '\r' by {
        if j % m != 2 * w {
            lemma_cell_glyph_in_ramp(ramp, c, w, h, on, j);
        }
    }
    assert(h * m - 1 == (h - 1) * m + 2 * w) by (nonlinear_arith)
        requires
            m == 2 * w + 1,
    ;
    lemma_fundamental_div_mod_converse(h * m - 1, m, h - 1, 2 * w);
    assert forall|j: int| 0 <= j < f.len() - 1 implies !delim_at(f, j) by {
        if f[j] == '\n' {
            lemma_fundamental_div_mod(j, m);
            let q = j / m;
            assert((q + 1) * m == q * m + m) by (nonlinear_arith);
            assert(j + 1 == (q + 1) * m + 0);
            lemma_fundamental_div_mod_converse(j + 1, m, j / m + 1, 0);
            assert(f[j + 1] != '\n');
        }
    }
}

/// Whether an RGB grid can be turned into a frame.
pub open spec fn convertible(img: &RgbGrid, ramp: &GlyphRamp, dither: bool) -> bool {
    &&& samplable(img)
    &&& img.width * img.height <= MAX_PIXELS
    &&& ramp.glyphs@.len() > 0
    &&& dither ==> img.width >= 2 && img.height >= 2
}

/// The brightness values of an RGB grid.
pub open spec fn grid_levels(img: &RgbGrid) -> Seq<int> {
    Seq::new((img.width * img.height) as nat, |i: int| pixel_luminance(img.data@, i))
}

/// Turns an RGB grid into one text frame: brightness sampling, then the
/// encoder.
pub fn frame_from_pixels(img: &RgbGrid, ramp: &GlyphRamp, dither: bool) -> (r: Result<String, FrameError>)
    ensures
        r is Err <==> !convertible(img, ramp, dither),
        r matches Ok(s) ==> s@ == encoded_frame(
            ramp.glyphs@,
            grid_levels(img),
            img.width as int,
            img.height as int,
            dither,
        ),
{
    let mut grid = match luminance_grid(img) {
        Ok(g) => g,
        Err(e) => {
            return Err(e);
        },
    };
    if grid.cells.len() as u64 > MAX_PIXELS {
        return Err(FrameError::InvalidInput);
    }
    proof {
        let len = grid.cells@.len() as int;
        assert(MAX_PIXELS == 17661175009295);
        assert(len * 1044480 <= 17661175009295 * 1044480) by (nonlinear_arith)
            requires
                len <= 17661175009295,
        ;
        assert(crate::dither::levels(grid.cells@) =~= grid_levels(img));
    }
    encode_frame(&mut grid, ramp, dither)
}

/// Scales a decoded image into the `FRAME_SIZE` box (aspect ratio kept) and
/// turns it into a text frame, as `frame_from_pixels` does on the scaled
/// pixels. Without dithering it succeeds for every non-empty ramp; with
/// dithering it fails when the scaled image is a single row or column.
pub fn convert_image(img: &image::DynamicImage, ramp: &GlyphRamp, dither: bool) -> (r: Result<String, FrameError>)
    ensures
        ramp.glyphs@.len() == 0 ==> r is Err,
        !dither && ramp.glyphs@.len() > 0 ==> r is Ok,
        r is Err ==> ramp.glyphs@.len() == 0 || dither,
        r matches Ok(s) ==> exists|c: Seq<int>, w: int, h: int|
            1 <= w <= FRAME_SIZE && 1 <= h <= FRAME_SIZE && c.len() == w * h && s@ == encoded_frame(
                ramp.glyphs@,
                c,
                w,
                h,
                dither,
            ),
        r matches Ok(s) ==> s@.len() <= FRAME_SIZE * (2 * FRAME_SIZE + 1),
        r matches Ok(s) ==> plain_ramp(ramp.glyphs@) ==> storable(s@),
{
    let pixels = scaled_rgb(img, FRAME_SIZE, FRAME_SIZE);
    proof {
        let w = pixels.width as int;
        let h = pixels.height as int;
        assert(w * h <= 200 * 200) by (nonlinear_arith)
            requires
                1 <= w <= 200,
                1 <= h <= 200,
        ;
        assert(MAX_PIXELS == 17661175009295);
    }
    let r = frame_from_pixels(&pixels, ramp, dither);
    proof {
        if r is Ok {
            let c = grid_levels(&pixels);
            let w = pixels.width as int;
            let h = pixels.height as int;
            assert(h * (2 * w + 1) <= 200 * (2 * 200 + 1)) by (nonlinear_arith)
                requires
                    1 <= w <= 200,
                    1 <= h <= 200,
            ;
            assert forall|i: int| 0 <= i < c.len() implies #[trigger] c[i] >= 0 by {
                assert(c[i] == pixel_luminance(pixels.data@, i));
            }
            if plain_ramp(ramp.glyphs@) {
                lemma_encoded_frame_storable(ramp.glyphs@, c, w, h, dither);
            }
        }
    }
    r
}

} // verus!
