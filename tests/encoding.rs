use ascii_video::dither::{encode_frame, GlyphRamp};
use ascii_video::error::FrameError;
use ascii_video::luminance::{luminance_grid, LuminanceGrid, RgbGrid, LEVEL_STEP, ONE};

fn grid(width: usize, height: usize, cells: Vec<u64>) -> LuminanceGrid {
    LuminanceGrid { width, height, cells }
}

#[test]
fn sampler_truncates_channel_average_before_scaling() {
    let img = RgbGrid { width: 3, height: 1, data: vec![10, 20, 31, 255, 255, 255, 0, 0, 2] };
    let g = luminance_grid(&img).unwrap();
    assert_eq!(g.width, 3);
    assert_eq!(g.height, 1);
    assert_eq!(g.cells, vec![20 * LEVEL_STEP, ONE, 0]);
}

#[test]
fn sampler_output_stays_within_unit_range() {
    let mut data = Vec::new();
    for i in 0..64u32 {
        data.push((i * 4) as u8);
        data.push(255 - (i * 3) as u8);
        data.push((i * 7 % 256) as u8);
    }
    let img = RgbGrid { width: 8, height: 8, data };
    let g = luminance_grid(&img).unwrap();
    assert_eq!(g.cells.len(), 64);
    for v in g.cells {
        assert!(v <= ONE);
    }
}

#[test]
fn sampler_rejects_empty_or_short_grids() {
    let empty = RgbGrid { width: 0, height: 3, data: vec![] };
    assert!(matches!(luminance_grid(&empty), Err(FrameError::InvalidInput)));
    let short = RgbGrid { width: 2, height: 1, data: vec![1, 2, 3, 4, 5] };
    assert!(matches!(luminance_grid(&short), Err(FrameError::InvalidInput)));
}

#[test]
fn dark_grid_without_diffusion_gives_first_glyph_and_keeps_grid() {
    let mut g = grid(5, 4, vec![0; 20]);
    let s = encode_frame(&mut g, &GlyphRamp::standard(), false).unwrap();
    assert_eq!(s, "..........\n".repeat(4));
    assert_eq!(g.cells, vec![0; 20]);
}

#[test]
fn full_grid_gives_last_glyph_with_diffusion() {
    let mut g = grid(6, 5, vec![ONE; 30]);
    let s = encode_frame(&mut g, &GlyphRamp::standard(), true).unwrap();
    assert_eq!(s, "@@@@@@@@@@@@\n".repeat(5));
}

#[test]
fn full_grid_gives_last_glyph_without_diffusion() {
    let mut g = grid(3, 2, vec![ONE; 6]);
    let s = encode_frame(&mut g, &GlyphRamp::standard(), false).unwrap();
    assert_eq!(s, "@@@@@@\n@@@@@@\n");
}

#[test]
fn values_above_full_brightness_are_clamped() {
    let mut g = grid(2, 1, vec![ONE * 3, 128 * LEVEL_STEP]);
    let s = encode_frame(&mut g, &GlyphRamp::standard(), false).unwrap();
    assert_eq!(s, "@@oo\n");
}

#[test]
fn diffusion_spreads_error_to_later_cells() {
    let mut g = grid(4, 2, vec![0, 0, 100 * LEVEL_STEP, 0, 0, 0, 0, 0]);
    let s = encode_frame(&mut g, &GlyphRamp::standard(), true).unwrap();
    assert_eq!(s, "....^^..\n........\n");
    assert_eq!(g.cells, vec![0, 0, 409600, 42112, 0, 18048, 30080, 6016]);
}

#[test]
fn diffusion_can_change_a_neighbours_glyph() {
    let cells = vec![0, 0, ONE, 80000, 0, 0, 0, 0];
    let mut on = grid(4, 2, cells.clone());
    let mut off = grid(4, 2, cells.clone());
    let ramp = GlyphRamp::standard();
    assert_eq!(encode_frame(&mut on, &ramp, true).unwrap(), "....@@,,\n........\n");
    assert_eq!(encode_frame(&mut off, &ramp, false).unwrap(), "....@@..\n........\n");
    assert_eq!(on.cells, vec![0, 0, ONE, 125696, 0, 19584, 32640, 6528]);
    assert_eq!(off.cells, cells);
}

#[test]
fn diffused_error_is_conserved_inside_the_grid() {
    let mut g = grid(4, 2, vec![0, 0, ONE, 0, 0, 0, 0, 0]);
    encode_frame(&mut g, &GlyphRamp::standard(), true).unwrap();
    let added: u64 = g.cells[3] + g.cells[5] + g.cells[6] + g.cells[7];
    assert_eq!(added, ONE - 9 * ONE / 10);
}

#[test]
fn edge_cells_do_not_diffuse() {
    let mut g = grid(4, 2, vec![0, ONE / 2, 0, ONE / 2, ONE / 2, 0, 0, 0]);
    encode_frame(&mut g, &GlyphRamp::standard(), true).unwrap();
    assert_eq!(g.cells, vec![0, ONE / 2, 0, ONE / 2, ONE / 2, 0, 0, 0]);
}

#[test]
fn encoder_rejects_bad_grids() {
    let ramp = GlyphRamp::standard();
    let mut empty = grid(0, 0, vec![]);
    assert!(matches!(encode_frame(&mut empty, &ramp, false), Err(FrameError::InvalidInput)));
    let mut ragged = grid(2, 2, vec![0, 0, 0]);
    assert!(matches!(encode_frame(&mut ragged, &ramp, false), Err(FrameError::InvalidInput)));
    let mut one_row = grid(4, 1, vec![0; 4]);
    assert!(matches!(encode_frame(&mut one_row, &ramp, true), Err(FrameError::InvalidInput)));
    let mut fine = grid(4, 1, vec![0; 4]);
    assert_eq!(encode_frame(&mut fine, &ramp, false).unwrap(), "........\n");
    let mut g = grid(1, 1, vec![0]);
    let no_glyphs = GlyphRamp { glyphs: vec![] };
    assert!(matches!(encode_frame(&mut g, &no_glyphs, false), Err(FrameError::InvalidInput)));
}

#[test]
fn short_ramp_bins_are_one_over_n_minus_one_wide() {
    let ramp = GlyphRamp { glyphs: vec!['a', 'b', 'c'] };
    let mut g = grid(3, 1, vec![ONE / 2 - 1, ONE / 2, ONE - 1]);
    assert_eq!(encode_frame(&mut g, &ramp, false).unwrap(), "aabbbb\n");
}

#[test]
fn sampler_ignores_bytes_past_the_last_pixel() {
    let img = RgbGrid { width: 1, height: 1, data: vec![255, 255, 255, 9, 9] };
    assert_eq!(luminance_grid(&img).unwrap().cells, vec![ONE]);
}
