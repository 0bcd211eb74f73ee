use anycubic::{
    build_preview_png, can_encode_png, decode_base64, decode_png_rgb8, encode_png_rgb8, resize_rgb_nearest, rgb8_from_samples,
    PngColour, PreviewError,
};
use base64::Engine;

fn to_base64(bytes: &[u8]) -> String {
    base64::engine::general_purpose::STANDARD.encode(bytes)
}

#[test]
fn resize_passthrough_when_same_size() {
    let src = vec![1u8, 2, 3, 4, 5, 6]; // 2x1 RGB
    let out = resize_rgb_nearest(2, 1, &src, 2, 1);
    assert_eq!(out, src);
}

#[test]
fn resize_doubles_width() {
    let src = vec![10u8, 20, 30, 40, 50, 60]; // 2x1 RGB pixels (10,20,30) and (40,50,60)
    let out = resize_rgb_nearest(2, 1, &src, 4, 1);
    // Nearest-neighbour: x=0->src.0, x=1->src.0, x=2->src.1, x=3->src.1
    assert_eq!(out, vec![10, 20, 30, 10, 20, 30, 40, 50, 60, 40, 50, 60]);
}

#[test]
fn resize_halves_both_sides() {
    // 4x2 image, pixel (x, y) has value 10*y + x in every channel.
    let mut src = Vec::new();
    for y in 0..2u8 {
        for x in 0..4u8 {
            let v = 10 * y + x;
            src.extend([v, v, v]);
        }
    }
    let out = resize_rgb_nearest(4, 2, &src, 2, 1);
    assert_eq!(out, vec![0, 0, 0, 2, 2, 2]);
}

#[test]
fn resize_to_nothing_is_empty() {
    assert!(resize_rgb_nearest(2, 1, &[1, 2, 3, 4, 5, 6], 0, 5).is_empty());
}

#[test]
fn base64_plain_and_data_url() {
    assert_eq!(decode_base64("aGk=").unwrap(), b"hi".to_vec());
    assert_eq!(decode_base64("data:image/png;base64,aGk=").unwrap(), b"hi".to_vec());
    assert_eq!(decode_base64("  aGVsbG8=\n").unwrap(), b"hello".to_vec());
    assert_eq!(decode_base64("data:x, aGk=\u{3000}").unwrap(), b"hi".to_vec());
    assert_eq!(decode_base64("").unwrap(), Vec::<u8>::new());
}

#[test]
fn base64_errors() {
    assert_eq!(decode_base64("aGk"), Err(PreviewError::InvalidBase64));
    assert_eq!(decode_base64("a,b,aGk="), Err(PreviewError::InvalidBase64));
    assert_eq!(decode_base64("!!!!"), Err(PreviewError::InvalidBase64));
}

#[test]
fn samples_to_rgb() {
    assert_eq!(rgb8_from_samples(PngColour::Rgb, &[1, 2, 3]).unwrap(), vec![1, 2, 3]);
    assert_eq!(
        rgb8_from_samples(PngColour::Rgba, &[1, 2, 3, 4, 5, 6, 7, 8, 9]).unwrap(),
        vec![1, 2, 3, 5, 6, 7]
    );
    assert_eq!(rgb8_from_samples(PngColour::Grayscale, &[7, 9]).unwrap(), vec![7, 7, 7, 9, 9, 9]);
    assert_eq!(
        rgb8_from_samples(PngColour::GrayscaleAlpha, &[7, 0, 9, 255, 4]).unwrap(),
        vec![7, 7, 7, 9, 9, 9]
    );
    assert_eq!(rgb8_from_samples(PngColour::Indexed, &[0]), Err(PreviewError::UnsupportedColourType));
}

#[test]
fn png_encode_then_decode_round_trips() {
    let rgb = vec![10u8, 20, 30, 40, 50, 60, 70, 80, 90, 100, 110, 120];
    let png = encode_png_rgb8(2, 2, &rgb).unwrap();
    assert_eq!(&png[..8], &[0x89, b'P', b'N', b'G', 0x0D, 0x0A, 0x1A, 0x0A]);
    let (w, h, px) = decode_png_rgb8(&png).unwrap();
    assert_eq!((w, h), (2, 2));
    assert_eq!(px, rgb);
}

#[test]
fn png_encode_errors() {
    assert_eq!(encode_png_rgb8(0, 1, &[]), Err(PreviewError::PngEncodeHeader));
    assert_eq!(encode_png_rgb8(2, 1, &[1, 2, 3]), Err(PreviewError::PngEncodeData));
}

#[test]
fn png_decode_errors() {
    assert_eq!(decode_png_rgb8(b"not a png"), Err(PreviewError::PngDecodeHeader));
    let png = encode_png_rgb8(4, 4, &[5u8; 48]).unwrap();
    assert_eq!(decode_png_rgb8(&png[..png.len() - 20]), Err(PreviewError::PngDecodeFrame));
}

#[test]
fn preview_missing_or_empty_is_none() {
    assert_eq!(build_preview_png(None, 4, 4), None);
    assert_eq!(build_preview_png(Some(""), 4, 4), None);
    assert_eq!(build_preview_png(Some("%%%%"), 4, 4), None);
    assert_eq!(build_preview_png(Some("aGk="), 4, 4), None);
}

#[test]
fn preview_is_resized_and_re_encoded() {
    let rgb = vec![10u8, 20, 30, 40, 50, 60];
    let png = encode_png_rgb8(2, 1, &rgb).unwrap();
    let source = format!("data:image/png;base64,{}", to_base64(&png));
    let out = build_preview_png(Some(&source), 4, 2).unwrap();
    let (w, h, px) = decode_png_rgb8(&out).unwrap();
    assert_eq!((w, h), (4, 2));
    assert_eq!(
        px,
        vec![10, 20, 30, 10, 20, 30, 40, 50, 60, 40, 50, 60, 10, 20, 30, 10, 20, 30, 40, 50, 60, 40, 50, 60]
    );
}

#[test]
fn preview_of_zero_size_is_none() {
    let png = encode_png_rgb8(1, 1, &[1, 2, 3]).unwrap();
    assert_eq!(build_preview_png(Some(&to_base64(&png)), 0, 3), None);
}

#[test]
fn upscale_then_downscale_restores_the_image() {
    let src: Vec<u8> = (0..18u8).collect(); // 3x2 RGB
    let up = resize_rgb_nearest(3, 2, &src, 6, 6);
    assert_eq!(up.len(), 108);
    assert_eq!(resize_rgb_nearest(6, 6, &up, 3, 2), src);
}

#[test]
fn encodable_sizes() {
    assert!(can_encode_png(224, 168));
    assert!(!can_encode_png(u32::MAX, u32::MAX));
}

#[test]
fn preview_too_large_to_encode_is_none() {
    let png = encode_png_rgb8(1, 1, &[1, 2, 3]).unwrap();
    assert_eq!(build_preview_png(Some(&to_base64(&png)), u32::MAX, u32::MAX), None);
}

#[test]
fn data_url_and_bare_payload_give_the_same_preview() {
    let png = encode_png_rgb8(2, 1, &[1, 2, 3, 4, 5, 6]).unwrap();
    let bare = to_base64(&png);
    let url = format!("data:image/png;base64,{bare}");
    assert_eq!(build_preview_png(Some(&url), 3, 3), build_preview_png(Some(&bare), 3, 3));
    assert!(build_preview_png(Some(&bare), 3, 3).is_some());
}
