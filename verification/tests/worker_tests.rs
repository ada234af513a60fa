use sobel_pipeline::codec::decode;
use sobel_pipeline::codec::from_mat;
use sobel_pipeline::frame::Frame;
use sobel_pipeline::frame::PipelineError;
use sobel_pipeline::tile::do_frame;
use sobel_pipeline::worker::handle_task;

fn bgr_frame(width: usize, height: usize) -> Frame {
    let data: Vec<u8> = (0..width * height * 3).map(|x| ((x * 53 + 19) % 256) as u8).collect();
    Frame::new(width, height, 3, data).unwrap()
}

#[test]
fn worker_answers_with_processed_frame() {
    let f = bgr_frame(4, 8);
    let task = from_mat(&f, 5, 0).unwrap().encode();
    let reply = handle_task(&task).unwrap();
    let m = decode(&reply).unwrap();
    assert_eq!(m.number, 5);
    assert_eq!(m.rows, 6);
    assert_eq!(m.cols, 2);
    assert_eq!(m.mat_type, 1);
    let expected = do_frame(&f).unwrap();
    assert_eq!(m.data, expected.data);
}

#[test]
fn worker_rejects_malformed_task() {
    assert_eq!(handle_task(&vec![1u8, 2, 3]), Err(PipelineError::Truncated));
}

#[test]
fn worker_rejects_gray_task() {
    let g = Frame::new(4, 8, 1, vec![0u8; 32]).unwrap();
    let task = from_mat(&g, 0, 0).unwrap().encode();
    assert_eq!(handle_task(&task), Err(PipelineError::NotBgrData));
}

#[test]
fn worker_rejects_indivisible_height() {
    let f = bgr_frame(4, 5);
    let task = from_mat(&f, 0, 0).unwrap().encode();
    assert_eq!(handle_task(&task), Err(PipelineError::BadShape));
}

#[test]
fn worker_rejects_result_too_narrow_for_the_wire() {
    // Two columns process to a zero-width edge map, which no message can
    // carry.
    let f = bgr_frame(2, 4);
    let task = from_mat(&f, 0, 0).unwrap().encode();
    assert_eq!(handle_task(&task), Err(PipelineError::BadDimensions));
}

#[test]
fn worker_then_reassembler_end_to_end() {
    // Tasks 0 and 1 processed out of order still present in order.
    let mut d = sobel_pipeline::dispatcher::Dispatcher::new();
    let f0 = bgr_frame(4, 4);
    let f1 = bgr_frame(6, 8);
    let t0 = d.dispatch_frame(&f0, 0).unwrap();
    let t1 = d.dispatch_frame(&f1, 0).unwrap();
    let r0 = decode(&handle_task(&t0).unwrap()).unwrap();
    let r1 = decode(&handle_task(&t1).unwrap()).unwrap();
    let mut buf = sobel_pipeline::reassembler::Reassembler::new();
    let first = buf.accept(r1.number, r1);
    assert!(first.is_empty());
    let second = buf.accept(r0.number, r0);
    assert_eq!(second.len(), 2);
    assert_eq!(second[0].rows, 2);
    assert_eq!(second[1].rows, 6);
}
