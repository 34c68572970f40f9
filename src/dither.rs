use vstd::prelude::*;
use vstd::arithmetic::div_mod::lemma_fundamental_div_mod_converse;

use crate::error::FrameError;
use crate::luminance::{LuminanceGrid, ONE};
use crate::text::push_char;

verus! {

/// Characters ordered from darkest to brightest.
pub struct GlyphRamp {
    pub glyphs: Vec<char>,
}

impl GlyphRamp {
    /// The ramp of ten glyphs used for converted videos.
    pub fn standard() -> (r: GlyphRamp)
        ensures
            r.glyphs@ == seq!['.', ',', '+', '^', 'o', '*', '&', '0', '#', '@'],
    {
        GlyphRamp { glyphs: vec!['.', ',', '+', '^', 'o', '*', '&', '0', '#', '@'] }
    }
}

/// The cells of a grid as mathematical integers.
pub open spec fn levels(s: Seq<u64>) -> Seq<int> {
    s.map_values(|v: u64| v as int)
}

/// A value capped at full brightness.
pub open spec fn clamp(v: int) -> int {
    if v > ONE {
        ONE as int
    } else {
        v
    }
}

/// The ramp index chosen for a value: bins are `1 / (n - 1)` wide, so only
/// full brightness reaches the last glyph.
pub open spec fn glyph_index(v: int, n: int) -> int {
    clamp(v) * (n - 1) / (ONE as int)
}

/// The quantization error of a value: the clamped value minus `index / n`.
pub open spec fn quant_error(v: int, n: int) -> int {
    clamp(v) - glyph_index(v, n) * ONE / n
}

/// The part of an error passed to the right neighbour (7/16).
pub open spec fn share_right(e: int) -> int {
    e * 7 / 16
}

/// The part passed to the neighbour below and to the left (3/16).
pub open spec fn share_down_left(e: int) -> int {
    e * 3 / 16
}

/// The part passed to the neighbour directly below (5/16).
pub open spec fn share_down(e: int) -> int {
    e * 5 / 16
}

/// The part passed to the neighbour below and to the right: what the other
/// three leave (1/16 and the rounding remainders), so no error is lost.
pub open spec fn share_down_right(e: int) -> int {
    e - share_right(e) - share_down_left(e) - share_down(e)
}

/// Whether the cell at `k` passes its error on: not in the first two
/// columns, the last column, or the last row.
pub open spec fn diffuses(k: int, w: int, h: int) -> bool {
    &&& 2 <= k % w
    &&& k % w + 1 < w
    &&& k / w + 1 < h
}

/// The grid after the cell at `k` has been visited.
pub open spec fn diffuse_step(c: Seq<int>, k: int, w: int, h: int, n: int, on: bool) -> Seq<int> {
    if on && diffuses(k, w, h) {
        let e = quant_error(c[k], n);
        c.update(k + 1, c[k + 1] + share_right(e)).update(
            k + w - 1,
            c[k + w - 1] + share_down_left(e),
        ).update(k + w, c[k + w] + share_down(e)).update(k + w + 1, c[k + w + 1] + share_down_right(e))
    } else {
        c
    }
}

/// The grid after the first `k` cells, in row-major order, have been visited.
pub open spec fn pass_state(c: Seq<int>, w: int, h: int, n: int, on: bool, k: nat) -> Seq<int>
    decreases k,
{
    if k == 0 {
        c
    } else {
        diffuse_step(pass_state(c, w, h, n, on, (k - 1) as nat), k - 1, w, h, n, on)
    }
}

/// The ramp index chosen for cell `k`: it sees the error diffused by all
/// earlier cells.
pub open spec fn cell_glyph(c: Seq<int>, w: int, h: int, n: int, on: bool, k: int) -> int {
    glyph_index(pass_state(c, w, h, n, on, k as nat)[k], n)
}

/// Character `i` of an encoded frame: each row holds every glyph twice and
/// ends with a line break.
pub open spec fn frame_char(ramp: Seq<char>, c: Seq<int>, w: int, h: int, on: bool, i: int) -> char {
    let col = i % (2 * w + 1);
    let row = i / (2 * w + 1);
    if col == 2 * w {
        '\n'
    } else {
        ramp[cell_glyph(c, w, h, ramp.len() as int, on, row * w + col / 2)]
    }
}

/// The text that encoding a `w` by `h` grid `c` gives.
pub open spec fn encoded_frame(ramp: Seq<char>, c: Seq<int>, w: int, h: int, on: bool) -> Seq<char> {
    Seq::new((h * (2 * w + 1)) as nat, |i: int| frame_char(ramp, c, w, h, on, i))
}

/// Whether a grid is accepted by the encoder.
pub open spec fn encodable(g: &LuminanceGrid, ramp: &GlyphRamp, on: bool) -> bool {
    &&& g.wf()
    &&& g.width > 0
    &&& g.height > 0
    &&& ramp.glyphs@.len() > 0
    &&& on ==> g.width >= 2 && g.height >= 2
}

/// Whether a full pass keeps every cell within `u64`: each visit adds at
/// most `ONE` to any cell.
pub open spec fn pass_fits(g: &LuminanceGrid) -> bool {
    forall|i: int| 0 <= i < g.cells@.len() ==> #[trigger] g.cells@[i] + g.cells@.len() * ONE <= u64::MAX
}

proof fn lemma_quant(v: int, n: int)
    requires
        v >= 0,
        n >= 1,
    ensures
        0 <= glyph_index(v, n) <= n - 1,
        0 <= quant_error(v, n) <= clamp(v) <= ONE,
{
    let c = clamp(v);
    let i = glyph_index(v, n);
    assert(0 <= c * (n - 1) <= ONE * (n - 1)) by (nonlinear_arith)
        requires
            0 <= c <= ONE,
            n >= 1,
    ;
    assert(i * ONE <= c * (n - 1)) by (nonlinear_arith)
        requires
            i == c * (n - 1) / (ONE as int),
            c * (n - 1) >= 0,
    ;
    assert(0 <= i <= n - 1) by (nonlinear_arith)
        requires
            i == c * (n - 1) / (ONE as int),
            0 <= c * (n - 1) <= ONE * (n - 1),
    ;
    assert(0 <= i * ONE / n <= c) by (nonlinear_arith)
        requires
            i * ONE <= c * (n - 1),
            i >= 0,
            c >= 0,
            n >= 1,
    ;
}

proof fn lemma_shares(e: int)
    requires
        e >= 0,
    ensures
        0 <= share_right(e) <= e,
        0 <= share_down_left(e) <= e,
        0 <= share_down(e) <= e,
        0 <= share_down_right(e) <= e,
        share_right(e) + share_down_left(e) + share_down(e) + share_down_right(e) == e,
{
}

proof fn lemma_pass_bounds(c: Seq<int>, w: int, h: int, n: int, on: bool, k: nat)
    requires
        w > 0,
        n >= 1,
        c.len() == w * h,
        k <= c.len(),
        forall|i: int| 0 <= i < c.len() ==> #[trigger] c[i] >= 0,
    ensures
        pass_state(c, w, h, n, on, k).len() == c.len(),
        forall|i: int|
            0 <= i < c.len() ==> c[i] <= #[trigger] pass_state(c, w, h, n, on, k)[i] <= c[i] + k * ONE,
    decreases k,
{
    if k > 0 {
        let j = (k - 1) as nat;
        lemma_pass_bounds(c, w, h, n, on, j);
        let p = pass_state(c, w, h, n, on, j);
        let q = pass_state(c, w, h, n, on, k);
        assert(q == diffuse_step(p, j as int, w, h, n, on));
        if on && diffuses(j as int, w, h) {
            let e = quant_error(p[j as int], n);
            lemma_quant(p[j as int], n);
            lemma_shares(e);
            lemma_index_bounds(j as int, w, h);
        }
        assert forall|i: int| 0 <= i < c.len() implies c[i] <= #[trigger] q[i] <= c[i] + k * ONE by {
            assert(p[i] <= c[i] + j * ONE);
        }
    }
}

/// The neighbours that a diffusing cell writes lie inside the grid.
proof fn lemma_index_bounds(k: int, w: int, h: int)
    requires
        w > 0,
        0 <= k,
        diffuses(k, w, h),
    ensures
        k + w + 1 < w * h,
        k + w - 1 > k + 1,
{
    let x = k % w;
    let y = k / w;
    vstd::arithmetic::div_mod::lemma_fundamental_div_mod(k, w);
    assert(k == y * w + x);
    assert(y + 2 <= h);
    assert((y + 2) * w <= h * w) by (nonlinear_arith)
        requires
            y + 2 <= h,
            w > 0,
    ;
    assert((y + 2) * w == y * w + 2 * w) by (nonlinear_arith);
}

/// The sum of a sequence of values.
pub open spec fn total(s: Seq<int>) -> int
    decreases s.len(),
{
    if s.len() == 0 {
        0
    } else {
        total(s.drop_last()) + s.last()
    }
}

proof fn lemma_total_add(s: Seq<int>, i: int, d: int)
    requires
        0 <= i < s.len(),
    ensures
        total(s.update(i, s[i] + d)) == total(s) + d,
    decreases s.len(),
{
    let t = s.update(i, s[i] + d);
    if i == s.len() - 1 {
        assert(t.drop_last() =~= s.drop_last());
    } else {
        lemma_total_add(s.drop_last(), i, d);
        assert(t.drop_last() =~= s.drop_last().update(i, s[i] + d));
    }
}

/// Without diffusion a pass leaves every cell as it was.
pub proof fn lemma_plain_pass_keeps_grid(c: Seq<int>, w: int, h: int, n: int, k: nat)
    ensures
        pass_state(c, w, h, n, false, k) == c,
    decreases k,
{
    if k > 0 {
        lemma_plain_pass_keeps_grid(c, w, h, n, (k - 1) as nat);
    }
}

/// On an all-dark grid without diffusion every cell gets the first glyph,
/// and the grid is left unchanged.
pub proof fn lemma_dark_grid_first_glyph(ramp: Seq<char>, c: Seq<int>, w: int, h: int)
    requires
        w > 0,
        h > 0,
        ramp.len() >= 1,
        c.len() == w * h,
        forall|i: int| 0 <= i < c.len() ==> #[trigger] c[i] == 0,
    ensures
        pass_state(c, w, h, ramp.len() as int, false, (w * h) as nat) == c,
        forall|k: int| 0 <= k < w * h ==> #[trigger] cell_glyph(c, w, h, ramp.len() as int, false, k) == 0,
        forall|i: int|
            0 <= i < h * (2 * w + 1) ==> #[trigger] encoded_frame(ramp, c, w, h, false)[i] == if i % (2 * w
                + 1) == 2 * w {
                '\n'
            } else {
                ramp[0]
            },
{
    let n = ramp.len() as int;
    lemma_plain_pass_keeps_grid(c, w, h, n, (w * h) as nat);
    assert forall|k: int| 0 <= k < w * h implies #[trigger] cell_glyph(c, w, h, n, false, k) == 0 by {
        lemma_plain_pass_keeps_grid(c, w, h, n, k as nat);
        assert(c[k] == 0);
        assert(0 * (n - 1) == 0);
    }
    assert forall|i: int| 0 <= i < h * (2 * w + 1) implies #[trigger] encoded_frame(
        ramp,
        c,
        w,
        h,
        false,
    )[i] == if i % (2 * w + 1) == 2 * w {
        '\n'
    } else {
        ramp[0]
    } by {
        let col = i % (2 * w + 1);
        let row = i / (2 * w + 1);
        if col != 2 * w {
            lemma_cell_in_grid(i, w, h);
        }
    }
}

/// Character `i` of an encoded frame that is not a row end is a glyph of the
/// ramp.
pub proof fn lemma_cell_glyph_in_ramp(ramp: Seq<char>, c: Seq<int>, w: int, h: int, on: bool, i: int)
    requires
        w > 0,
        ramp.len() >= 1,
        c.len() == w * h,
        forall|j: int| 0 <= j < c.len() ==> #[trigger] c[j] >= 0,
        0 <= i < h * (2 * w + 1),
        i % (2 * w + 1) != 2 * w,
    ensures
        ({
            let k = (i / (2 * w + 1)) * w + (i % (2 * w + 1)) / 2;
            let g = cell_glyph(c, w, h, ramp.len() as int, on, k);
            &&& 0 <= g < ramp.len()
            &&& frame_char(ramp, c, w, h, on, i) == ramp[g]
        }),
{
    let n = ramp.len() as int;
    let k = (i / (2 * w + 1)) * w + (i % (2 * w + 1)) / 2;
    lemma_cell_in_grid(i, w, h);
    lemma_pass_bounds(c, w, h, n, on, k as nat);
    lemma_quant(pass_state(c, w, h, n, on, k as nat)[k], n);
}

/// Character `i` of a frame that is not a line break shows a grid cell.
proof fn lemma_cell_in_grid(i: int, w: int, h: int)
    requires
        w > 0,
        0 <= i < h * (2 * w + 1),
        i % (2 * w + 1) != 2 * w,
    ensures
        0 <= (i / (2 * w + 1)) * w + (i % (2 * w + 1)) / 2 < w * h,
{
    let col = i % (2 * w + 1);
    let row = i / (2 * w + 1);
    vstd::arithmetic::div_mod::lemma_fundamental_div_mod(i, 2 * w + 1);
    assert(0 <= row < h) by (nonlinear_arith)
        requires
            i == (2 * w + 1) * row + col,
            0 <= col < 2 * w + 1,
            0 <= i < h * (2 * w + 1),
            w > 0,
    ;
    assert(0 <= col / 2 < w);
    assert(row * w + col / 2 < w * h) by (nonlinear_arith)
        requires
            0 <= row < h,
            0 <= col / 2 < w,
    ;
    assert(row * w >= 0) by (nonlinear_arith)
        requires
            row >= 0,
            w > 0,
    ;
}

/// On a grid at full brightness everywhere every cell gets the last glyph,
/// with or without diffusion.
pub proof fn lemma_full_grid_last_glyph(c: Seq<int>, w: int, h: int, n: int, on: bool)
    requires
        w > 0,
        n >= 1,
        c.len() == w * h,
        forall|i: int| 0 <= i < c.len() ==> #[trigger] c[i] == ONE,
    ensures
        forall|k: int| 0 <= k < w * h ==> #[trigger] cell_glyph(c, w, h, n, on, k) == n - 1,
{
    assert forall|k: int| 0 <= k < w * h implies #[trigger] cell_glyph(c, w, h, n, on, k) == n - 1 by {
        lemma_pass_bounds(c, w, h, n, on, k as nat);
        let v = pass_state(c, w, h, n, on, k as nat)[k];
        assert(v >= ONE);
        assert(clamp(v) == ONE);
        assert(ONE * (n - 1) / (ONE as int) == n - 1) by (nonlinear_arith)
            requires
                n >= 1,
        ;
    }
}

/// The four shares of a diffused error add up to the whole error, so one
/// diffusing visit raises the grid's total by exactly that error.
pub proof fn lemma_diffusion_conserves(c: Seq<int>, k: int, w: int, h: int, n: int)
    requires
        w > 0,
        n >= 1,
        c.len() == w * h,
        0 <= k,
        diffuses(k, w, h),
        c[k] >= 0,
    ensures
        share_right(quant_error(c[k], n)) + share_down_left(quant_error(c[k], n)) + share_down(
            quant_error(c[k], n),
        ) + share_down_right(quant_error(c[k], n)) == quant_error(c[k], n),
        total(diffuse_step(c, k, w, h, n, true)) == total(c) + quant_error(c[k], n),
{
    let e = quant_error(c[k], n);
    lemma_index_bounds(k, w, h);
    let c1 = c.update(k + 1, c[k + 1] + share_right(e));
    let c2 = c1.update(k + w - 1, c1[k + w - 1] + share_down_left(e));
    let c3 = c2.update(k + w, c2[k + w] + share_down(e));
    let c4 = c3.update(k + w + 1, c3[k + w + 1] + share_down_right(e));
    lemma_total_add(c, k + 1, share_right(e));
    lemma_total_add(c1, k + w - 1, share_down_left(e));
    lemma_total_add(c2, k + w, share_down(e));
    lemma_total_add(c3, k + w + 1, share_down_right(e));
    assert(c4 =~= diffuse_step(c, k, w, h, n, true));
}

/// Every cell of any non-negative grid gets a glyph inside the ramp, and a
/// cell whose value has reached full brightness by its visit gets the last
/// glyph, never one past it.
pub proof fn lemma_glyphs_in_ramp(c: Seq<int>, w: int, h: int, n: int, on: bool)
    requires
        w > 0,
        n >= 1,
        c.len() == w * h,
        forall|i: int| 0 <= i < c.len() ==> #[trigger] c[i] >= 0,
    ensures
        forall|k: int| 0 <= k < w * h ==> 0 <= #[trigger] cell_glyph(c, w, h, n, on, k) <= n - 1,
        forall|k: int|
            0 <= k < w * h && pass_state(c, w, h, n, on, k as nat)[k] >= ONE ==> #[trigger] cell_glyph(
                c,
                w,
                h,
                n,
                on,
                k,
            ) == n - 1,
{
    assert forall|k: int| 0 <= k < w * h implies 0 <= #[trigger] cell_glyph(c, w, h, n, on, k) <= n - 1
        && (pass_state(c, w, h, n, on, k as nat)[k] >= ONE ==> cell_glyph(c, w, h, n, on, k) == n - 1) by {
        lemma_pass_bounds(c, w, h, n, on, k as nat);
        lemma_quant(pass_state(c, w, h, n, on, k as nat)[k], n);
        assert(ONE * (n - 1) / (ONE as int) == n - 1) by (nonlinear_arith)
            requires
                n >= 1,
        ;
    }
}

/// The error handed on by the first `k` visits: a visit in the trimmed
/// border (or with diffusion off) hands on nothing.
pub open spec fn diffused_error(c: Seq<int>, w: int, h: int, n: int, on: bool, k: nat) -> int
    decreases k,
{
    if k == 0 {
        0
    } else {
        let j = (k - 1) as nat;
        diffused_error(c, w, h, n, on, j) + if on && diffuses(j as int, w, h) {
            quant_error(pass_state(c, w, h, n, on, j)[j as int], n)
        } else {
            0
        }
    }
}

/// Over a whole pass the grid's total rises by exactly the error that the
/// diffusing cells handed on: what a diffusing cell loses to quantization
/// goes to its neighbours in full, and the trimmed border hands on nothing.
pub proof fn lemma_pass_conserves(c: Seq<int>, w: int, h: int, n: int, on: bool, k: nat)
    requires
        w > 0,
        n >= 1,
        c.len() == w * h,
        k <= c.len(),
        forall|i: int| 0 <= i < c.len() ==> #[trigger] c[i] >= 0,
    ensures
        total(pass_state(c, w, h, n, on, k)) == total(c) + diffused_error(c, w, h, n, on, k),
    decreases k,
{
    if k > 0 {
        let j = (k - 1) as nat;
        lemma_pass_conserves(c, w, h, n, on, j);
        lemma_pass_bounds(c, w, h, n, on, j);
        let p = pass_state(c, w, h, n, on, j);
        if on && diffuses(j as int, w, h) {
            assert(p[j as int] >= 0);
            lemma_diffusion_conserves(p, j as int, w, h, n);
        }
    }
}

/// Encodes a grid as text. Cells are visited in row-major order; each is
/// capped at full brightness, mapped to a ramp index, and written as that
/// glyph twice; each row ends with a line break. With `diffuse` on, a
/// visited cell's quantization error is added to the not yet visited
/// neighbours (right 7/16, below-left 3/16, below 5/16, below-right the
/// rest), skipping the first two columns, the last column and the last row.
pub fn encode_frame(grid: &mut LuminanceGrid, ramp: &GlyphRamp, diffuse: bool) -> (r: Result<String, FrameError>)
    requires
        diffuse ==> pass_fits(old(grid)),
    ensures
        r is Err <==> !encodable(old(grid), ramp, diffuse),
        r is Err ==> *final(grid) == *old(grid),
        r matches Ok(s) ==> {
            let c = levels(old(grid).cells@);
            let w = old(grid).width as int;
            let h = old(grid).height as int;
            &&& s@ == encoded_frame(ramp.glyphs@, c, w, h, diffuse)
            &&& final(grid).width == old(grid).width
            &&& final(grid).height == old(grid).height
            &&& levels(final(grid).cells@) == pass_state(
                c,
                w,
                h,
                ramp.glyphs@.len() as int,
                diffuse,
                (w * h) as nat,
            )
        },
{
    let w = grid.width;
    let h = grid.height;
    let n = ramp.glyphs.len();
    let len = grid.cells.len();
    if w == 0 || h == 0 || n == 0 || (diffuse && (w < 2 || h < 2)) {
        return Err(FrameError::InvalidInput);
    }
    match w.checked_mul(h) {
        Some(m) => {
            if m != len {
                return Err(FrameError::InvalidInput);
            }
        },
        None => {
            return Err(FrameError::InvalidInput);
        },
    }
    let ghost c = levels(grid.cells@);
    let ghost wi = w as int;
    let ghost hi = h as int;
    let ghost ni = n as int;
    proof {
        assert forall|i: int| 0 <= i < c.len() implies #[trigger] c[i] >= 0 by {}
    }
    let mut out = String::new();
    let mut k: usize = 0;
    let mut x: usize = 0;
    let mut y: usize = 0;
    while k < len
        invariant
            w == wi,
            h == hi,
            n == ni,
            ni == ramp.glyphs@.len(),
            wi > 0,
            hi > 0,
            ni >= 1,
            len == wi * hi,
            c.len() == len,
            grid.width == w,
            grid.height == h,
            grid.cells@.len() == len,
            forall|i: int| 0 <= i < c.len() ==> #[trigger] c[i] >= 0,
            diffuse ==> forall|i: int| 0 <= i < c.len() ==> #[trigger] c[i] + len * ONE <= u64::MAX,
            k <= len,
            x < w,
            k == y * wi + x,
            levels(grid.cells@) == pass_state(c, wi, hi, ni, diffuse, k as nat),
            out@.len() == y * (2 * wi + 1) + 2 * x,
            forall|i: int|
                0 <= i < out@.len() ==> #[trigger] out@[i] == frame_char(ramp.glyphs@, c, wi, hi, diffuse, i),
        decreases len - k,
    {
        let ghost p = levels(grid.cells@);
        proof {
            lemma_pass_bounds(c, wi, hi, ni, diffuse, k as nat);
            lemma_fundamental_div_mod_converse(k as int, wi, y as int, x as int);
            assert(p[k as int] == grid.cells@[k as int]);
        }
        let raw = grid.cells[k];
        let v: u64 = if raw > ONE { ONE } else { raw };
        proof {
            let vi = v as int;
            let mi = (n - 1) as int;
            assert(vi * mi <= 1044480 * 0xffff_ffff_ffff_ffff) by (nonlinear_arith)
                requires
                    0 <= vi <= 1044480,
                    0 <= mi <= 0xffff_ffff_ffff_ffff,
            ;
        }
        let idx128: u128 = (v as u128) * ((n - 1) as u128) / (ONE as u128);
        proof {
            lemma_quant(p[k as int], ni);
            assert(idx128 == glyph_index(p[k as int], ni));
        }
        let idx: usize = idx128 as usize;
        let back: u128 = (idx as u128) * (ONE as u128) / (n as u128);
        let err: u64 = v - back as u64;
        assert(err == quant_error(p[k as int], ni));
        let g = ramp.glyphs[idx];
        let ghost pos = out@.len() as int;
        push_char(&mut out, g);
        push_char(&mut out, g);
        proof {
            assert(cell_glyph(c, wi, hi, ni, diffuse, k as int) == idx);
            assert forall|i: int| 0 <= i < out@.len() implies #[trigger] out@[i] == frame_char(
                ramp.glyphs@,
                c,
                wi,
                hi,
                diffuse,
                i,
            ) by {
                if i >= pos {
                    lemma_fundamental_div_mod_converse(i, 2 * wi + 1, y as int, i - y * (2 * wi + 1));
                }
            }
        }
        if diffuse && x >= 2 && x + 1 < w && y + 1 < h {
            proof {
                lemma_index_bounds(k as int, wi, hi);
                lemma_shares(err as int);
                assert((k + 1) * ONE <= len * ONE) by (nonlinear_arith)
                    requires
                        k < len,
                ;
                assert forall|j: int| 0 <= j < len implies #[trigger] p[j] + ONE <= u64::MAX by {
                    assert(p[j] <= c[j] + k * ONE);
                    assert(c[j] + len * ONE <= u64::MAX);
                }
            }
            let right = err * 7 / 16;
            let down_left = err * 3 / 16;
            let down = err * 5 / 16;
            let down_right = err - right - down_left - down;
            assert(grid.cells@[k + 1] as int == p[k + 1]);
            assert(grid.cells@[k + w - 1] as int == p[k + w - 1]);
            assert(grid.cells@[k + w] as int == p[k + w as int]);
            assert(grid.cells@[k + w + 1] as int == p[k + w + 1]);
            let a = grid.cells[k + 1];
            grid.cells.set(k + 1, a + right);
            let b = grid.cells[k + w - 1];
            grid.cells.set(k + w - 1, b + down_left);
            let d = grid.cells[k + w];
            grid.cells.set(k + w, d + down);
            let f = grid.cells[k + w + 1];
            grid.cells.set(k + w + 1, f + down_right);
            proof {
                let q = diffuse_step(p, k as int, wi, hi, ni, diffuse);
                assert(levels(grid.cells@) =~= q);
            }
        } else {
            proof {
                assert(!(diffuse && diffuses(k as int, wi, hi)));
                assert(levels(grid.cells@) =~= diffuse_step(p, k as int, wi, hi, ni, diffuse));
            }
        }
        if x + 1 == w {
            let ghost pos2 = out@.len() as int;
            push_char(&mut out, '\n');
            proof {
                assert forall|i: int| 0 <= i < out@.len() implies #[trigger] out@[i] == frame_char(
                    ramp.glyphs@,
                    c,
                    wi,
                    hi,
                    diffuse,
                    i,
                ) by {
                    if i == pos2 {
                        lemma_fundamental_div_mod_converse(i, 2 * wi + 1, y as int, 2 * wi);
                    }
                }
                assert((y + 1) * (2 * wi + 1) == y * (2 * wi + 1) + 2 * wi + 1) by (nonlinear_arith);
                assert((y + 1) * wi == y * wi + wi) by (nonlinear_arith);
            }
            x = 0;
            y = y + 1;
        } else {
            x = x + 1;
        }
        k = k + 1;
    }
    proof {
        lemma_fundamental_div_mod_converse(len as int, wi, y as int, x as int);
        lemma_fundamental_div_mod_converse(len as int, wi, hi, 0);
        assert(y == hi && x == 0);
    }
    assert(out@ =~= encoded_frame(ramp.glyphs@, c, wi, hi, diffuse));
    Ok(out)
}

} // verus!
