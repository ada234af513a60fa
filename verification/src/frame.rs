//! The owned pixel buffer that flows through the pipeline, and the error
//! type shared by every stage.

use vstd::prelude::*;

verus! {

/// Everything that can go wrong in the pipeline's own logic.  Transport
/// and capture failures live outside the library.
#[derive(Clone, Copy, Debug, PartialEq, Eq, Structural)]
pub enum PipelineError {
    /// A grayscale input whose length is not a multiple of three.
    NotBgrData,
    /// A frame or message with a zero or unrepresentable row or column count.
    BadDimensions,
    /// A pixel-format tag that is neither single-channel nor three-channel.
    BadPixelFormat,
    /// A data buffer whose length does not match rows * cols * channels.
    SizeMismatch,
    /// A wire buffer too short for the header, or whose payload length
    /// field disagrees with the bytes actually present.
    Truncated,
    /// A value that does not fit the machine word or field it must occupy.
    TooLarge,
    /// A frame too small, or of the wrong shape, for stripe processing.
    BadShape,
}

/// A row-major pixel buffer: `channels` bytes per pixel, `width` pixels per
/// row, `height` rows.  Single-channel frames are gray or edge maps;
/// three-channel frames are BGR color.
pub struct Frame {
    pub width: usize,
    pub height: usize,
    pub channels: usize,
    pub data: Vec<u8>,
}

impl Frame {
    /// The one invariant every stage relies on: a recognised channel count
    /// and a buffer of exactly the advertised size.
    pub open spec fn wf(self) -> bool {
        &&& (self.channels == 1 || self.channels == 3)
        &&& self.data@.len() == self.width * self.height * self.channels
    }

    /// The byte of channel `ch` of the pixel at row `r`, column `c`.
    pub open spec fn pixel(self, r: int, c: int, ch: int) -> u8 {
        self.data@[(r * self.width + c) * self.channels + ch]
    }

    /// Builds a frame after checking that the buffer matches the claimed
    /// geometry; the only way a well-formed frame comes into being.
    pub fn new(width: usize, height: usize, channels: usize, data: Vec<u8>) -> (r: Result<
        Frame,
        PipelineError,
    >)
        ensures
            match r {
                Ok(f) => {
                    &&& f.width == width
                    &&& f.height == height
                    &&& f.channels == channels
                    &&& f.data@ == data@
                    &&& f.wf()
                },
                Err(e) => {
                    &&& e == PipelineError::BadPixelFormat ==> !(channels == 1 || channels == 3)
                    &&& e == PipelineError::SizeMismatch ==> data@.len() != width * height
                        * channels
                    &&& (e == PipelineError::BadPixelFormat || e == PipelineError::SizeMismatch)
                },
            },
            r is Err <==> !(Frame { width, height, channels, data: data }.wf()),
    {
        if !(channels == 1 || channels == 3) {
            return Err(PipelineError::BadPixelFormat);
        }
        let n = data.len();
        let pixels = match width.checked_mul(height) {
            Some(p) => p,
            None => {
                proof {
                    lemma_mul_overflow(width as nat, height as nat, channels as nat, n as nat);
                }
                return Err(PipelineError::SizeMismatch);
            },
        };
        let expected = match pixels.checked_mul(channels) {
            Some(t) => t,
            None => {
                proof {
                    lemma_mul_overflow(width as nat, height as nat, channels as nat, n as nat);
                }
                return Err(PipelineError::SizeMismatch);
            },
        };
        if n != expected {
            return Err(PipelineError::SizeMismatch);
        }
        Ok(Frame { width, height, channels, data })
    }
}

/// If the pixel count times the channel count overflows `usize`, no real
/// buffer can have that length.
proof fn lemma_mul_overflow(w: nat, h: nat, ch: nat, len: nat)
    requires
        len <= usize::MAX,
        w * h > usize::MAX || w * h * ch > usize::MAX,
        ch >= 1,
    ensures
        len != w * h * ch,
{
    assert(w * h * ch >= w * h * 1 == w * h) by (nonlinear_arith)
        requires
            ch >= 1,
    ;
}

} // verus!
