use anycubic::{encode_pw0, encode_pw0_from_rle, flush_run, RleRun};

#[test]
fn encode_all_black() {
    let mask = vec![0u8; 100];
    let encoded = encode_pw0(&mask);
    // Black run of 100: 0x0064
    assert_eq!(encoded, vec![0x00, 100]);
}

#[test]
fn encode_all_white() {
    let mask = vec![255u8; 100];
    let encoded = encode_pw0(&mask);
    // White run of 100: 0xF064
    assert_eq!(encoded, vec![0xF0, 100]);
}

#[test]
fn encode_grey_limited_to_15_reps() {
    // Grey colour 0x8 (pixel value 0x80..0x8F) with 20 reps
    let mask = vec![0x88u8; 20];
    let encoded = encode_pw0(&mask);
    // 15 reps + 5 reps
    assert_eq!(encoded, vec![0x8F, 0x85]);
}

#[test]
fn encode_mixed() {
    // 3 black, 2 white
    let mask = vec![0, 0, 0, 255, 255];
    let encoded = encode_pw0(&mask);
    assert_eq!(encoded, vec![0x00, 3, 0xF0, 2]);
}

#[test]
fn encode_long_black_run_above_4095() {
    let mask = vec![0u8; 5000];
    let encoded = encode_pw0(&mask);
    // 4095 + 905 = 0x0FFF then 0x0389
    assert_eq!(encoded, vec![0x0F, 0xFF, 0x03, 0x89]);
}

#[test]
fn encode_rle_matches_mask_encoding() {
    let mask = vec![0, 0, 0x88, 0x88, 0x88, 255, 255, 0, 0];
    let runs = vec![
        RleRun { length: 2, value: 0 },
        RleRun { length: 3, value: 0x88 },
        RleRun { length: 2, value: 255 },
        RleRun { length: 2, value: 0 },
    ];

    assert_eq!(encode_pw0(&mask), encode_pw0_from_rle(&runs, mask.len()));
}

#[test]
fn encode_empty_rle_layer_as_black() {
    let encoded = encode_pw0_from_rle(&[], 100);
    assert_eq!(encoded, vec![0x00, 100]);
}

#[test]
fn encode_rle_pads_truncated_input_with_black() {
    let runs = vec![RleRun { length: 3, value: 255 }];
    let encoded = encode_pw0_from_rle(&runs, 5);
    assert_eq!(encoded, vec![0xF0, 3, 0x00, 2]);
}

#[test]
fn encode_empty_mask_is_empty() {
    assert_eq!(encode_pw0(&[]), Vec::<u8>::new());
}

#[test]
fn pixels_are_quantised_to_their_high_nibble() {
    // 0x80..0x8F share colour 8, 0x90 is colour 9; 0x0F is still black, 0xF0 white.
    let mask = vec![0x80, 0x8F, 0x90, 0x0F, 0xF0];
    assert_eq!(encode_pw0(&mask), vec![0x82, 0x91, 0x00, 1, 0xF0, 1]);
}

#[test]
fn white_run_of_exactly_4095_and_4096() {
    assert_eq!(encode_pw0(&vec![0xFFu8; 4095]), vec![0xFF, 0xFF]);
    assert_eq!(encode_pw0(&vec![0xFFu8; 4096]), vec![0xFF, 0xFF, 0xF0, 0x01]);
}

#[test]
fn grey_run_of_31_takes_three_bytes() {
    assert_eq!(encode_pw0(&vec![0x11u8; 31]), vec![0x1F, 0x1F, 0x11]);
}

#[test]
fn flush_run_appends_and_resets() {
    let mut out = vec![0xAA];
    let mut reps = 8192u32;
    flush_run(&mut out, 0x0, &mut reps);
    assert_eq!(reps, 0);
    assert_eq!(out, vec![0xAA, 0x0F, 0xFF, 0x0F, 0xFF, 0x00, 0x02]);

    let mut reps = 0u32;
    flush_run(&mut out, 0x7, &mut reps);
    assert_eq!(out.len(), 7);

    let mut reps = 16u32;
    flush_run(&mut out, 0xE, &mut reps);
    assert_eq!(&out[7..], &[0xEF, 0xE1]);
}

#[test]
fn adjacent_rle_runs_of_one_colour_are_joined() {
    let runs = vec![
        RleRun { length: 3, value: 0x21 },
        RleRun { length: 4, value: 0x2F },
        RleRun { length: 1, value: 0xFF },
    ];
    assert_eq!(encode_pw0_from_rle(&runs, 8), vec![0x27, 0xF0, 1]);
}

#[test]
fn rle_runs_beyond_the_layer_are_cut() {
    let runs = vec![RleRun { length: 4, value: 0xFF }, RleRun { length: 9, value: 0x50 }];
    assert_eq!(encode_pw0_from_rle(&runs, 6), vec![0xF0, 4, 0x52]);
}

#[test]
fn an_empty_rle_run_ends_the_layer() {
    let runs = vec![
        RleRun { length: 2, value: 0xFF },
        RleRun { length: 0, value: 0x50 },
        RleRun { length: 2, value: 0xFF },
    ];
    assert_eq!(encode_pw0_from_rle(&runs, 6), vec![0xF0, 2, 0x00, 4]);
}

#[test]
fn black_padding_after_a_black_run_is_a_run_of_its_own() {
    let runs = vec![RleRun { length: 3, value: 0 }];
    assert_eq!(encode_pw0_from_rle(&runs, 5), vec![0x00, 3, 0x00, 2]);
    assert_eq!(encode_pw0(&[0, 0, 0, 0, 0]), vec![0x00, 5]);
}

#[test]
fn rle_encoding_matches_the_padded_mask() {
    let runs = vec![RleRun { length: 20, value: 0x33 }, RleRun { length: 5000, value: 0xF7 }];
    let mut mask = vec![0x33u8; 20];
    mask.extend(vec![0xF7u8; 5000]);
    mask.extend(vec![0u8; 7]);
    assert_eq!(encode_pw0_from_rle(&runs, 5027), encode_pw0(&mask));
}

#[test]
fn empty_rle_layer_of_zero_pixels_is_empty() {
    assert_eq!(encode_pw0_from_rle(&[], 0), Vec::<u8>::new());
}

#[test]
fn rle_runs_beyond_the_layer_match_the_cut_mask() {
    let runs = vec![RleRun { length: 4, value: 0xFF }, RleRun { length: 9, value: 0x50 }];
    let mask = vec![0xFF, 0xFF, 0xFF, 0xFF, 0x50, 0x50];
    assert_eq!(encode_pw0_from_rle(&runs, 6), encode_pw0(&mask));
}

#[test]
fn only_high_nibbles_matter() {
    let a = vec![0x00, 0x0F, 0x45, 0x4A, 0xF3, 0xFF];
    let b = vec![0x07, 0x01, 0x40, 0x4F, 0xF0, 0xF9];
    assert_eq!(encode_pw0(&a), encode_pw0(&b));
}

#[test]
fn encoding_splits_where_the_colour_changes() {
    let a = vec![0x22u8; 17];
    let b = vec![0xFFu8; 3];
    let mut ab = a.clone();
    ab.extend(&b);
    let mut expected = encode_pw0(&a);
    expected.extend(encode_pw0(&b));
    assert_eq!(encode_pw0(&ab), expected);
}
