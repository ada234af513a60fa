use sobel_pipeline::convolve::to442_grayscale;
use sobel_pipeline::convolve::to442_sobel;
use sobel_pipeline::frame::Frame;
use sobel_pipeline::frame::PipelineError;
use sobel_pipeline::tile::do_frame;
use sobel_pipeline::tile::do_sobel_parallel;
use sobel_pipeline::tile::split;
use sobel_pipeline::tile::stitch;
use sobel_pipeline::tile::trim;

fn bgr_frame(width: usize, height: usize) -> Frame {
    let data: Vec<u8> = (0..width * height * 3).map(|x| ((x * 31 + 7) % 256) as u8).collect();
    Frame::new(width, height, 3, data).unwrap()
}

#[test]
fn split_produces_haloed_stripes() {
    // Six rows into two stripes of three: each gains one halo row at the
    // shared boundary, so both span four rows.
    let f = bgr_frame(2, 6);
    let stripes = split(&f, 2);
    assert_eq!(stripes.len(), 2);
    assert_eq!(stripes[0].height, 4);
    assert_eq!(stripes[1].height, 4);
    let row_bytes = 2 * 3;
    assert_eq!(stripes[0].data, f.data[0..4 * row_bytes].to_vec());
    assert_eq!(stripes[1].data, f.data[2 * row_bytes..6 * row_bytes].to_vec());
}

#[test]
fn split_single_stripe_is_whole_frame() {
    let f = bgr_frame(3, 4);
    let stripes = split(&f, 1);
    assert_eq!(stripes.len(), 1);
    assert_eq!(stripes[0].height, 4);
    assert_eq!(stripes[0].data, f.data);
}

#[test]
fn trim_drops_border_ring() {
    let data: Vec<u8> = (1..=12).collect();
    let f = Frame::new(4, 3, 1, data).unwrap();
    let t = trim(&f);
    assert_eq!(t.width, 2);
    assert_eq!(t.height, 1);
    // Row 1, columns 1 and 2 of the 4-wide buffer: values 6 and 7.
    assert_eq!(t.data, vec![6u8, 7]);
}

#[test]
fn stitch_concatenates_in_order() {
    let a = Frame::new(2, 1, 1, vec![1, 2]).unwrap();
    let b = Frame::new(2, 2, 1, vec![3, 4, 5, 6]).unwrap();
    let s = stitch(&vec![a, b]).unwrap();
    assert_eq!(s.width, 2);
    assert_eq!(s.height, 3);
    assert_eq!(s.data, vec![1, 2, 3, 4, 5, 6]);
}

#[test]
fn process_rejects_gray_stripes() {
    let g = Frame::new(2, 2, 1, vec![0; 4]).unwrap();
    assert!(matches!(do_sobel_parallel(&vec![g]), Err(PipelineError::NotBgrData)));
}

#[test]
fn tiling_matches_whole_frame() {
    // The stitched stripe pipeline equals whole-frame grayscale + Sobel,
    // trimmed to the pixels with a full neighborhood.
    let f = bgr_frame(4, 8);
    let tiled = do_frame(&f).unwrap();
    let gray = to442_grayscale(&f.data).unwrap();
    let edges = to442_sobel(&gray, 4, 8);
    let whole = trim(&Frame::new(4, 8, 1, edges).unwrap());
    assert_eq!(tiled.width, whole.width);
    assert_eq!(tiled.height, whole.height);
    assert_eq!(tiled.channels, 1);
    assert_eq!(tiled.data, whole.data);
}

#[test]
fn tiling_matches_whole_frame_minimal_width() {
    let f = bgr_frame(2, 4);
    let tiled = do_frame(&f).unwrap();
    assert_eq!(tiled.width, 0);
    assert_eq!(tiled.height, 2);
    assert!(tiled.data.is_empty());
}

#[test]
fn tiling_equivalence_for_other_stripe_counts() {
    // stitch(trim(process(split(frame, n)))) equals the trimmed
    // whole-frame result for stripe counts besides the pipeline's fixed
    // four.
    let f = bgr_frame(5, 6);
    let gray = to442_grayscale(&f.data).unwrap();
    let edges = to442_sobel(&gray, 5, 6);
    let whole = trim(&Frame::new(5, 6, 1, edges).unwrap());
    for n in [1usize, 2, 3, 6] {
        let stripes = split(&f, n);
        let processed = do_sobel_parallel(&stripes).unwrap();
        let mut trimmed = Vec::new();
        for p in &processed {
            trimmed.push(trim(p));
        }
        let stitched = stitch(&trimmed).unwrap();
        assert_eq!(stitched.width, whole.width);
        assert_eq!(stitched.height, whole.height);
        assert_eq!(stitched.data, whole.data);
    }
}

#[test]
fn do_frame_rejects_wrong_channels() {
    let g = Frame::new(4, 8, 1, vec![0; 32]).unwrap();
    assert!(matches!(do_frame(&g), Err(PipelineError::NotBgrData)));
}

#[test]
fn do_frame_rejects_indivisible_height() {
    let f = bgr_frame(4, 6);
    assert!(matches!(do_frame(&f), Err(PipelineError::BadShape)));
    let narrow = bgr_frame(1, 4);
    assert!(matches!(do_frame(&narrow), Err(PipelineError::BadShape)));
}

#[test]
fn frame_new_validates_geometry() {
    assert!(matches!(Frame::new(2, 2, 2, vec![0; 8]), Err(PipelineError::BadPixelFormat)));
    assert!(matches!(Frame::new(2, 2, 3, vec![0; 11]), Err(PipelineError::SizeMismatch)));
    assert!(Frame::new(2, 2, 3, vec![0; 12]).is_ok());
}
