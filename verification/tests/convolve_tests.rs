use sobel_pipeline::convolve::to442_grayscale;
use sobel_pipeline::convolve::to442_grayscale_simd;
use sobel_pipeline::convolve::to442_sobel;
use sobel_pipeline::convolve::to442_sobel_simd;
use sobel_pipeline::frame::PipelineError;

#[test]
fn gray_formula_exact_value() {
    // (B, G, R) = (10, 20, 30): floor(0.2126*30 + 0.7152*20 + 0.0722*10) = 21.
    let bgr = vec![10u8, 20, 30];
    let gray = to442_grayscale(&bgr).unwrap();
    assert_eq!(gray, vec![21u8]);
}

#[test]
fn gray_extremes_stay_in_range() {
    let bgr = vec![255u8, 255, 255, 0, 0, 0];
    let gray = to442_grayscale(&bgr).unwrap();
    assert_eq!(gray, vec![255u8, 0]);
}

#[test]
fn gray_rejects_length_not_multiple_of_three() {
    let bgr = vec![1u8, 2];
    assert_eq!(to442_grayscale(&bgr), Err(PipelineError::NotBgrData));
    assert_eq!(to442_grayscale(&vec![1u8, 2, 3, 4]), Err(PipelineError::NotBgrData));
}

#[test]
fn gray_empty_input() {
    let gray = to442_grayscale(&Vec::new()).unwrap();
    assert!(gray.is_empty());
}

#[test]
fn gray_blocked_variant_matches_scalar() {
    // Twelve bytes: four pixels, one vector block.
    let bgr: Vec<u8> = vec![10, 20, 30, 255, 0, 0, 0, 255, 0, 0, 0, 255, 7, 7, 7, 1, 2, 3, 200, 100, 50, 33, 66, 99];
    let scalar = to442_grayscale(&bgr).unwrap();
    let blocked = to442_grayscale_simd(&bgr);
    assert_eq!(scalar, blocked);
}

#[test]
fn sobel_uniform_image_is_zero() {
    let img = vec![137u8; 5 * 4];
    let edges = to442_sobel(&img, 5, 4);
    assert_eq!(edges, vec![0u8; 5 * 4]);
}

#[test]
fn sobel_vertical_step_saturates() {
    // Columns 0 and 1 are 0; columns 2 and 3 are 255.
    let w = 4usize;
    let h = 4usize;
    let mut img = vec![0u8; w * h];
    for r in 0..h {
        for c in 2..w {
            img[r * w + c] = 255;
        }
    }
    let edges = to442_sobel(&img, w, h);
    // At the boundary column of every interior row the magnitude is 255.
    for r in 1..h - 1 {
        assert_eq!(edges[r * w + 2], 255);
    }
}

#[test]
fn sobel_exact_interior_value() {
    // A single bright pixel below the centre: gx = 0, gy = -2 * 10.
    let img = vec![0u8, 0, 0, 0, 0, 0, 0, 10, 0];
    let edges = to442_sobel(&img, 3, 3);
    let mut expected = vec![0u8; 9];
    expected[4] = 20;
    assert_eq!(edges, expected);
}

#[test]
fn sobel_border_rows_and_columns_are_zero() {
    let img: Vec<u8> = (0u16..25).map(|x| (x * 9 % 256) as u8).collect();
    let edges = to442_sobel(&img, 5, 5);
    for c in 0..5 {
        assert_eq!(edges[c], 0);
        assert_eq!(edges[4 * 5 + c], 0);
    }
    for r in 0..5 {
        assert_eq!(edges[r * 5], 0);
        assert_eq!(edges[r * 5 + 4], 0);
    }
}

#[test]
fn sobel_blocked_variant_matches_scalar() {
    // Wider than one block so the blocked loop takes several steps.
    let w = 13usize;
    let h = 6usize;
    let img: Vec<u8> = (0..w * h).map(|x| ((x * 37 + 11) % 256) as u8).collect();
    let scalar = to442_sobel(&img, w, h);
    let blocked = to442_sobel_simd(&img, w, h);
    assert_eq!(scalar, blocked);
}

#[test]
fn sobel_degenerate_sizes_are_all_zero() {
    assert_eq!(to442_sobel(&vec![5u8; 4], 2, 2), vec![0u8; 4]);
    assert_eq!(to442_sobel(&vec![5u8; 3], 3, 1), vec![0u8; 3]);
    assert_eq!(to442_sobel(&Vec::new(), 0, 0), Vec::<u8>::new());
}
