use ascii_video::convert::{convert_image, frame_from_pixels};
use ascii_video::dither::GlyphRamp;
use ascii_video::error::FrameError;
use ascii_video::luminance::RgbGrid;

#[test]
fn pixels_become_a_text_frame() {
    let img = RgbGrid { width: 2, height: 1, data: vec![0, 0, 0, 255, 255, 255] };
    assert_eq!(frame_from_pixels(&img, &GlyphRamp::standard(), false).unwrap(), "..@@\n");
}

#[test]
fn pixels_with_dithering_on_a_single_row_are_refused() {
    let img = RgbGrid { width: 2, height: 1, data: vec![0, 0, 0, 255, 255, 255] };
    assert!(matches!(frame_from_pixels(&img, &GlyphRamp::standard(), true), Err(FrameError::InvalidInput)));
    let short = RgbGrid { width: 2, height: 2, data: vec![0; 6] };
    assert!(matches!(frame_from_pixels(&short, &GlyphRamp::standard(), false), Err(FrameError::InvalidInput)));
}

#[test]
fn decoded_image_is_scaled_into_the_frame_box() {
    let img = image::DynamicImage::new_rgb8(1, 1);
    let s = convert_image(&img, &GlyphRamp::standard(), true).unwrap();
    let rows: Vec<&str> = s.split_terminator('\n').collect();
    assert_eq!(rows.len(), 200);
    for r in rows {
        assert_eq!(r, ".".repeat(400));
    }
}

#[test]
fn wide_image_keeps_its_aspect_ratio() {
    let img = image::DynamicImage::ImageRgb8(image::RgbImage::from_pixel(4, 2, image::Rgb([255, 255, 255])));
    let s = convert_image(&img, &GlyphRamp::standard(), false).unwrap();
    let rows: Vec<&str> = s.split_terminator('\n').collect();
    assert_eq!(rows.len(), 100);
    assert_eq!(rows[0], "@".repeat(400));
}

#[test]
fn one_row_image_converts_without_dithering_only() {
    let img = image::DynamicImage::ImageRgb8(image::RgbImage::from_pixel(1000, 1, image::Rgb([0, 0, 0])));
    let plain = convert_image(&img, &GlyphRamp::standard(), false).unwrap();
    assert_eq!(plain, format!("{}\n", ".".repeat(400)));
    assert!(matches!(convert_image(&img, &GlyphRamp::standard(), true), Err(FrameError::InvalidInput)));
}

#[test]
fn converted_frame_fits_the_box() {
    let img = image::DynamicImage::ImageRgb8(image::RgbImage::from_pixel(3, 700, image::Rgb([128, 128, 128])));
    let s = convert_image(&img, &GlyphRamp::standard(), false).unwrap();
    let rows: Vec<&str> = s.split_terminator('\n').collect();
    assert_eq!(rows.len(), 200);
    assert_eq!(rows[0], "oo");
}

#[test]
fn empty_ramp_is_refused_for_images() {
    let img = image::DynamicImage::new_rgb8(2, 2);
    let ramp = GlyphRamp { glyphs: vec![] };
    assert!(matches!(convert_image(&img, &ramp, false), Err(FrameError::InvalidInput)));
}
