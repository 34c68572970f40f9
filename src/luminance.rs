use vstd::prelude::*;

use crate::error::FrameError;

verus! {

/// Fixed-point units per grey level: a level `l` in `0..=255` is stored as
/// `l * LEVEL_STEP`.
pub const LEVEL_STEP: u64 = 4096;

/// The fixed-point value of full brightness (1.0): `255 * LEVEL_STEP`.
/// It is divisible by every ramp length up to 6 and by 8, 10, 12, 15, 16.
pub const ONE: u64 = 1044480;

/// An RGB raster, row-major, three bytes per pixel.
pub struct RgbGrid {
    pub width: usize,
    pub height: usize,
    pub data: Vec<u8>,
}

/// A grid of brightness values in fixed point (`ONE` is 1.0), row-major.
/// Values may exceed `ONE` while error diffusion runs.
pub struct LuminanceGrid {
    pub width: usize,
    pub height: usize,
    pub cells: Vec<u64>,
}

impl LuminanceGrid {
    /// The cells hold exactly `width * height` values.
    pub open spec fn wf(&self) -> bool {
        self.cells@.len() == self.width * self.height
    }
}

/// The grey level of a pixel: the channel average, truncated.
pub open spec fn grey_level(r: u8, g: u8, b: u8) -> int {
    (r as int + g as int + b as int) / 3
}

/// The brightness of pixel `i` of a raw RGB buffer, in fixed point.
pub open spec fn pixel_luminance(data: Seq<u8>, i: int) -> int {
    grey_level(data[3 * i], data[3 * i + 1], data[3 * i + 2]) * LEVEL_STEP
}

/// Whether `img` can be sampled: non-empty, and its buffer holds at least
/// three bytes for every pixel (bytes past the last pixel are ignored).
pub open spec fn samplable(img: &RgbGrid) -> bool {
    img.width > 0 && img.height > 0 && img.data@.len() >= 3 * (img.width * img.height)
}

/// Reduces an RGB grid to brightness values: the three channels are averaged
/// with truncation first, then scaled so that level 255 is `ONE`.
pub fn luminance_grid(img: &RgbGrid) -> (r: Result<LuminanceGrid, FrameError>)
    ensures
        r is Err <==> !samplable(img),
        r matches Ok(g) ==> {
            &&& g.wf()
            &&& g.width == img.width
            &&& g.height == img.height
            &&& forall|i: int|
                0 <= i < g.cells@.len() ==> #[trigger] g.cells@[i] as int == pixel_luminance(img.data@, i)
            &&& forall|i: int| 0 <= i < g.cells@.len() ==> 0 <= #[trigger] g.cells@[i] <= ONE
        },
{
    if img.width == 0 || img.height == 0 {
        return Err(FrameError::InvalidInput);
    }
    let len = img.data.len();
    let n = match img.width.checked_mul(img.height) {
        Some(n) => n,
        None => {
            return Err(FrameError::InvalidInput);
        },
    };
    if n > len / 3 {
        return Err(FrameError::InvalidInput);
    }
    let mut cells: Vec<u64> = Vec::with_capacity(n);
    let mut i: usize = 0;
    while i < n
        invariant
            i <= n,
            n == img.width * img.height,
            img.data@.len() >= 3 * n,
            3 * n <= usize::MAX,
            cells@.len() == i,
            forall|j: int| 0 <= j < i ==> #[trigger] cells@[j] as int == pixel_luminance(img.data@, j),
            forall|j: int| 0 <= j < i ==> 0 <= #[trigger] cells@[j] <= ONE,
        decreases n - i,
    {
        let sum: u16 = img.data[3 * i] as u16 + img.data[3 * i + 1] as u16 + img.data[3 * i + 2] as u16;
        let v: u64 = (sum / 3) as u64 * LEVEL_STEP;
        cells.push(v);
        i += 1;
    }
    Ok(LuminanceGrid { width: img.width, height: img.height, cells })
}

} // verus!
