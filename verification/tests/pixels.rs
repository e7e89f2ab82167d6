//! Premultiplied-alpha arithmetic and in-place pixel conversions.

use lightpolars::pixels::{
    blend_mask, crop_pixels, demultiply_in_place, jpeg_from_premultiplied, png_from_premultiplied, premultiplied_pixels,
    premultiply, rgba_to_rgb_in_place,
};

#[test]
fn premultiplying_rounds_to_nearest() {
    assert_eq!(premultiply(255, 255), 255);
    assert_eq!(premultiply(255, 128), 128);
    assert_eq!(premultiply(100, 0), 0);
    assert_eq!(premultiply(1, 128), 1);
    assert_eq!(premultiply(200, 100), 78);
}

#[test]
fn straight_pixels_become_premultiplied() {
    let out = premultiplied_pixels(&[255, 128, 0, 128, 10, 20, 30, 255, 9]);
    assert_eq!(out, vec![128, 64, 0, 128, 10, 20, 30, 255]);
}

#[test]
fn demultiplying_keeps_opaque_clears_transparent_and_ignores_the_tail() {
    let mut data = vec![10, 20, 30, 255, 5, 6, 7, 0, 64, 32, 0, 128, 1];
    demultiply_in_place(&mut data);
    assert_eq!(&data[..4], &[10, 20, 30, 255]);
    assert_eq!(&data[4..8], &[0, 0, 0, 0]);
    assert_eq!(data[11], 128);
    assert!(data[8] >= 126 && data[8] <= 128, "about twice the premultiplied red: {}", data[8]);
    assert_eq!(data[12], 1);
}

#[test]
fn rgba_packs_into_rgb_at_the_front() {
    let mut data = vec![1, 2, 3, 4, 5, 6, 7, 8];
    rgba_to_rgb_in_place(&mut data, 2);
    assert_eq!(&data[..6], &[1, 2, 3, 5, 6, 7]);
}

#[test]
fn a_full_coverage_mask_paints_the_colour() {
    // 2x2 white canvas, premultiplied.
    let mut canvas = vec![255u8; 16];
    blend_mask(&mut canvas, 2, 2, &[255], 1, 1, 1, 0, [10, 20, 30]);
    assert_eq!(&canvas[4..8], &[10, 20, 30, 255]);
    assert_eq!(&canvas[..4], &[255, 255, 255, 255]);
    assert_eq!(&canvas[8..], &[255u8; 8]);
}

#[test]
fn a_half_coverage_mask_mixes_with_the_canvas() {
    let mut canvas = vec![0u8, 0, 0, 255];
    blend_mask(&mut canvas, 1, 1, &[128], 1, 1, 0, 0, [255, 0, 0]);
    assert_eq!(canvas, vec![128, 0, 0, 255]);
}

#[test]
fn a_mask_outside_the_canvas_is_clipped() {
    let mut canvas = vec![0u8; 4];
    blend_mask(&mut canvas, 1, 1, &[255, 255, 255, 255], 2, 2, -1, -1, [1, 2, 3]);
    assert_eq!(canvas, vec![1, 2, 3, 255]);
    let mut far = vec![0u8; 4];
    blend_mask(&mut far, 1, 1, &[255], 1, 1, 5, 5, [1, 2, 3]);
    assert_eq!(far, vec![0, 0, 0, 0]);
}

#[test]
fn a_mask_buffer_too_short_draws_nothing() {
    let mut canvas = vec![0u8; 4];
    blend_mask(&mut canvas, 1, 1, &[255], 2, 2, 0, 0, [1, 2, 3]);
    assert_eq!(canvas, vec![0, 0, 0, 0]);
}

#[test]
fn a_crop_copies_the_visible_rows_in_order() {
    // 3x2 image, each pixel's four bytes equal to its index.
    let img: Vec<u8> = (0..6u8).flat_map(|p| [p; 4]).collect();
    let out = crop_pixels(&img, 3, 2, 1, 0, 2, 2);
    assert_eq!(out, vec![1, 1, 1, 1, 2, 2, 2, 2, 4, 4, 4, 4, 5, 5, 5, 5]);
    assert!(crop_pixels(&img, 3, 2, 0, 1, 1, 0).is_empty());
}

#[test]
fn an_opaque_sheet_encodes_to_a_png() {
    let mut sheet = vec![255u8; 10 * 10 * 4];
    let bytes = png_from_premultiplied(&mut sheet, 10, 10).unwrap();
    assert_eq!(&bytes[..8], b"\x89PNG\r\n\x1a\n");
    assert_eq!(sheet, vec![255u8; 10 * 10 * 4]);
}

#[test]
fn the_png_is_encoded_from_straight_alpha() {
    // A transparent pixel becomes black before the encoder sees it.
    let mut pixels = vec![0, 0, 0, 0, 10, 20, 30, 255];
    assert!(png_from_premultiplied(&mut pixels, 2, 1).is_some());
    assert_eq!(pixels, vec![0, 0, 0, 0, 10, 20, 30, 255]);
    let mut half = vec![64, 32, 0, 128];
    assert!(png_from_premultiplied(&mut half, 1, 1).is_some());
    assert_eq!(half[3], 128);
    assert!(half[0] >= 127 && half[0] <= 128);
}

#[test]
fn an_empty_image_encodes_to_nothing() {
    assert!(png_from_premultiplied(&mut [], 0, 10).is_none());
    assert!(jpeg_from_premultiplied(&mut [], 10, 0, 80).is_none());
}

#[test]
fn an_opaque_sheet_encodes_to_a_jpeg() {
    let mut sheet = vec![255u8; 10 * 10 * 4];
    let bytes = jpeg_from_premultiplied(&mut sheet, 10, 10, 80).unwrap();
    assert_eq!(&bytes[..2], b"\xff\xd8", "JPEG SOI");
    // Packed to RGB at the front of the same buffer.
    assert_eq!(&sheet[..300], &[255u8; 300][..]);
}

#[test]
fn a_jpeg_quality_out_of_range_is_clamped() {
    let mut a = vec![255u8; 10 * 10 * 4];
    let mut b = a.clone();
    let mut c = a.clone();
    let zero = jpeg_from_premultiplied(&mut a, 10, 10, 0).unwrap();
    let one = jpeg_from_premultiplied(&mut b, 10, 10, 1).unwrap();
    assert_eq!(zero, one);
    assert!(jpeg_from_premultiplied(&mut c, 10, 10, 255).is_some());
}

#[test]
fn a_jpeg_wider_than_the_format_allows_is_refused() {
    let mut row = vec![255u8; 65536 * 4];
    assert!(jpeg_from_premultiplied(&mut row, 65536, 1, 80).is_none());
}
