use sobel_pipeline::codec::decode;
use sobel_pipeline::dispatcher::Dispatcher;
use sobel_pipeline::dispatcher::InFlightCounter;
use sobel_pipeline::dispatcher::DEFAULT_HIGH_WATER;
use sobel_pipeline::frame::Frame;
use sobel_pipeline::frame::PipelineError;

#[test]
fn backpressure_never_exceeds_high_water() {
    // Gate every send on can_send: the backlog stays at or below the
    // mark, and sending resumes once consumption frees headroom.
    let mut c = InFlightCounter::new(2);
    assert!(c.can_send());
    c.record_sent();
    assert!(c.sent - c.consumed <= 2);
    assert!(c.can_send());
    c.record_sent();
    assert!(c.sent - c.consumed <= 2);
    assert!(!c.can_send());
    c.record_consumed();
    assert!(c.can_send());
    c.record_sent();
    assert!(c.sent - c.consumed <= 2);
    assert!(!c.can_send());
}

#[test]
fn backpressure_default_mark_allows_eight() {
    let mut c = InFlightCounter::new(DEFAULT_HIGH_WATER);
    for _ in 0..DEFAULT_HIGH_WATER {
        assert!(c.can_send());
        c.record_sent();
    }
    assert!(!c.can_send());
    assert_eq!(c.sent - c.consumed, DEFAULT_HIGH_WATER);
}

#[test]
fn dispatch_numbers_tasks_from_zero() {
    let mut d = Dispatcher::new();
    let f = Frame::new(2, 2, 3, vec![9u8; 12]).unwrap();
    let t0 = d.dispatch_frame(&f, 0).unwrap();
    let t1 = d.dispatch_frame(&f, 0).unwrap();
    assert_eq!(decode(&t0).unwrap().number, 0);
    assert_eq!(decode(&t1).unwrap().number, 1);
}

#[test]
fn dispatch_task_carries_the_frame() {
    let mut d = Dispatcher::new();
    let data: Vec<u8> = (0u8..12).collect();
    let f = Frame::new(2, 2, 3, data.clone()).unwrap();
    let task = d.dispatch_frame(&f, 3).unwrap();
    let m = decode(&task).unwrap();
    assert_eq!(m.rows, 2);
    assert_eq!(m.cols, 2);
    assert_eq!(m.mat_type, 3);
    assert_eq!(m.send_time, 3);
    assert_eq!(m.data, data);
}

#[test]
fn dispatch_failure_still_advances_sequence() {
    // A frame the wire cannot carry is dropped, but its number becomes a
    // tolerated gap: the next task is numbered past it.
    let mut d = Dispatcher::new();
    let empty = Frame::new(0, 0, 3, Vec::new()).unwrap();
    assert!(matches!(d.dispatch_frame(&empty, 0), Err(PipelineError::BadDimensions)));
    let f = Frame::new(1, 1, 3, vec![1, 2, 3]).unwrap();
    let task = d.dispatch_frame(&f, 0).unwrap();
    assert_eq!(decode(&task).unwrap().number, 1);
}
