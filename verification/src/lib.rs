//! A tile-parallel image-convolution pipeline: grayscale and Sobel-edge
//! transforms over owned pixel buffers, stripe splitting with halo rows,
//! trimming and stitching, a wire codec for task and result messages,
//! an ordered-delivery reassembly buffer, and backpressure accounting.
//!
//! Capture, transport and display are left to the surrounding program;
//! everything here is plain logic over byte buffers and is verified.

pub mod codec;
pub mod convolve;
pub mod dispatcher;
pub mod frame;
pub mod reassembler;
pub mod tile;
pub mod worker;
