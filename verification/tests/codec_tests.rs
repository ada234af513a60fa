use sobel_pipeline::codec::decode;
use sobel_pipeline::codec::from_mat;
use sobel_pipeline::codec::MatMessage;
use sobel_pipeline::frame::Frame;
use sobel_pipeline::frame::PipelineError;

fn sample_message() -> MatMessage {
    MatMessage {
        rows: 2,
        cols: 3,
        mat_type: 3,
        number: 7,
        send_time: -5,
        data: (0u8..18).collect(),
    }
}

#[test]
fn wire_roundtrip_bit_for_bit() {
    let m = sample_message();
    let bytes = m.encode();
    assert_eq!(bytes.len(), 32 + 18);
    let back = decode(&bytes).unwrap();
    assert_eq!(back.rows, 2);
    assert_eq!(back.cols, 3);
    assert_eq!(back.mat_type, 3);
    assert_eq!(back.number, 7);
    assert_eq!(back.send_time, -5);
    assert_eq!(back.data, m.data);
}

#[test]
fn wire_roundtrip_large_number() {
    let m = MatMessage {
        rows: 1,
        cols: 1,
        mat_type: 1,
        number: 0xdead_beef_cafe_f00d,
        send_time: 0,
        data: vec![42],
    };
    let back = decode(&m.encode()).unwrap();
    assert_eq!(back.number, 0xdead_beef_cafe_f00d);
    assert_eq!(back.data, vec![42]);
}

#[test]
fn decode_rejects_short_buffer() {
    assert!(matches!(decode(&vec![0u8; 31]), Err(PipelineError::Truncated)));
    assert!(matches!(decode(&Vec::new()), Err(PipelineError::Truncated)));
}

#[test]
fn decode_rejects_zero_rows() {
    let mut bytes = sample_message().encode();
    bytes[0] = 0;
    bytes[1] = 0;
    bytes[2] = 0;
    bytes[3] = 0;
    assert!(matches!(decode(&bytes), Err(PipelineError::BadDimensions)));
}

#[test]
fn decode_rejects_negative_rows() {
    let mut bytes = sample_message().encode();
    // The bit pattern of -1.
    bytes[0] = 0xff;
    bytes[1] = 0xff;
    bytes[2] = 0xff;
    bytes[3] = 0xff;
    assert!(matches!(decode(&bytes), Err(PipelineError::BadDimensions)));
}

#[test]
fn decode_rejects_unknown_pixel_format() {
    let mut bytes = sample_message().encode();
    bytes[8] = 2;
    assert!(matches!(decode(&bytes), Err(PipelineError::BadPixelFormat)));
}

#[test]
fn decode_rejects_trailing_bytes() {
    let mut bytes = sample_message().encode();
    bytes.push(0);
    assert!(matches!(decode(&bytes), Err(PipelineError::Truncated)));
}

#[test]
fn decode_rejects_geometry_mismatch() {
    // Claim one row: the 18 payload bytes no longer match 1 * 3 * 3.
    let mut bytes = sample_message().encode();
    bytes[0] = 1;
    assert!(matches!(decode(&bytes), Err(PipelineError::SizeMismatch)));
}

#[test]
fn from_mat_wraps_frame() {
    let f = Frame::new(3, 2, 3, (0u8..18).collect()).unwrap();
    let m = from_mat(&f, 9, 4).unwrap();
    assert_eq!(m.rows, 2);
    assert_eq!(m.cols, 3);
    assert_eq!(m.mat_type, 3);
    assert_eq!(m.number, 9);
    assert_eq!(m.send_time, 4);
    assert_eq!(m.data, f.data);
}

#[test]
fn from_mat_rejects_empty_dimension() {
    let f = Frame::new(0, 2, 3, Vec::new()).unwrap();
    assert!(matches!(from_mat(&f, 0, 0), Err(PipelineError::BadDimensions)));
}

#[test]
fn message_to_frame_roundtrip() {
    let m = sample_message();
    let f = m.to_frame().unwrap();
    assert_eq!(f.width, 3);
    assert_eq!(f.height, 2);
    assert_eq!(f.channels, 3);
    assert_eq!(f.data, m.data);
}

#[test]
fn message_to_frame_rejects_bad_payload() {
    let mut m = sample_message();
    m.data.pop();
    assert!(matches!(m.to_frame(), Err(PipelineError::SizeMismatch)));
    let mut m2 = sample_message();
    m2.mat_type = 0;
    assert!(matches!(m2.to_frame(), Err(PipelineError::BadPixelFormat)));
    let mut m3 = sample_message();
    m3.rows = -2;
    assert!(matches!(m3.to_frame(), Err(PipelineError::BadDimensions)));
}
