use protean::binarize::{
    GrayFrame, RgbaFrame, apply_threshold, binarize_gray, calculate_otsu_threshold,
    otsu_threshold_of, preprocess_image, stretch_contrast, to_grayscale,
};

#[test]
fn uniform_frame_is_unchanged_in_size_and_not_stretched() {
    let pixels = vec![90u8; 12];
    assert_eq!(stretch_contrast(&pixels), pixels);
    assert_eq!(otsu_threshold_of(&pixels), 0);
    let frame = GrayFrame::new(4, 3, pixels).unwrap();
    let out = binarize_gray(&frame);
    assert_eq!(out.width(), 4);
    assert_eq!(out.height(), 3);
    assert_eq!(out.pixels(), &vec![255u8; 12]);
    let black = GrayFrame::new(2, 2, vec![0u8; 4]).unwrap();
    assert_eq!(binarize_gray(&black).pixels(), &vec![0u8; 4]);
}

#[test]
fn empty_frame() {
    let frame = GrayFrame::new(0, 5, Vec::new()).unwrap();
    assert_eq!(calculate_otsu_threshold(&frame), 0);
    let out = binarize_gray(&frame);
    assert_eq!(out.pixels().len(), 0);
    assert_eq!(out.height(), 5);
}

#[test]
fn two_value_threshold_separates_clusters() {
    let mut pixels = vec![10u8; 7];
    pixels.extend(vec![240u8; 3]);
    let t = otsu_threshold_of(&pixels);
    assert!(10 <= t && t < 240);
    assert_eq!(t, 10);
    let out = apply_threshold(&pixels, t);
    assert_eq!(&out[..7], &[0u8; 7]);
    assert_eq!(&out[7..], &[255u8; 3]);
}

#[test]
fn otsu_picks_maximal_variance_split() {
    // values 0, 1, 2, 3 once each: splits at 0, 1 and 2; the middle one
    // (1) balances the classes and has the largest variance.
    assert_eq!(otsu_threshold_of(&vec![0u8, 1, 2, 3]), 1);
    // 0 x3, 100 x1, 200 x3: splits at 0 and 100 tie; the lower one wins.
    assert_eq!(otsu_threshold_of(&vec![0u8, 0, 0, 100, 200, 200, 200]), 0);
}

#[test]
fn stretch_rounds_to_nearest() {
    // min 10, max 20: (v - 10) * 255 / 10, rounded.
    assert_eq!(stretch_contrast(&vec![10u8, 11, 15, 20]), vec![0u8, 26, 128, 255]);
    assert_eq!(stretch_contrast(&vec![0u8, 255]), vec![0u8, 255]);
}

#[test]
fn frames_check_their_sizes() {
    assert!(GrayFrame::new(2, 2, vec![0u8; 3]).is_none());
    assert!(RgbaFrame::new(2, 2, vec![0u8; 8]).is_none());
    assert!(RgbaFrame::new(2, 2, vec![0u8; 16]).is_some());
    assert!(GrayFrame::new(70000, 70000, Vec::new()).is_none());
}

#[test]
fn grayscale_has_one_byte_per_pixel() {
    let data = vec![255u8, 255, 255, 255, 0, 0, 0, 255, 255, 255, 255, 255];
    let frame = RgbaFrame::new(3, 1, data).unwrap();
    let gray = to_grayscale(&frame);
    assert_eq!(gray.width(), 3);
    assert_eq!(gray.pixels(), &vec![255u8, 0, 255]);
}

#[test]
fn preprocess_gives_black_and_white_of_same_size() {
    let mut data = Vec::new();
    for i in 0..6u8 {
        let v = if i % 2 == 0 { 30 } else { 220 };
        data.extend([v, v, v, 255]);
    }
    let frame = RgbaFrame::new(3, 2, data).unwrap();
    let out = preprocess_image(&frame);
    assert_eq!((out.width(), out.height()), (3, 2));
    assert_eq!(out.pixels(), &vec![0u8, 255, 0, 255, 0, 255]);
}
