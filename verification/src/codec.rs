//! The wire format for task and result messages: a fixed 32-byte
//! little-endian header (rows, cols, pixel-format tag, sequence number,
//! reserved send time, payload length) followed by the pixel bytes.
//!
//! Decoding rejects non-positive dimensions, unknown pixel-format tags,
//! and any buffer whose payload length disagrees with rows * cols *
//! bytes-per-pixel or with the bytes actually present.

use vstd::prelude::*;

use crate::frame::Frame;
use crate::frame::PipelineError;

verus! {

/// Bytes in the fixed message header.
pub const HEADER_BYTES: usize = 32;

/// A frame in flight: the same shape serves tasks (colour frames out to
/// workers) and results (edge maps back).  `mat_type` is the channel
/// count, 1 or 3; `send_time` is reserved and carried untouched.
pub struct MatMessage {
    pub rows: i32,
    pub cols: i32,
    pub mat_type: i32,
    pub number: u64,
    pub send_time: i32,
    pub data: Vec<u8>,
}

impl MatMessage {
    /// Positive dimensions, a known channel tag, and a payload of exactly
    /// the advertised size.
    pub open spec fn wf(self) -> bool {
        &&& self.rows >= 1
        &&& self.cols >= 1
        &&& (self.mat_type == 1 || self.mat_type == 3)
        &&& self.data@.len() == self.rows * self.cols * self.mat_type
    }
}

/// The four little-endian bytes of a 32-bit value.
pub open spec fn le32(x: u32) -> Seq<u8> {
    seq![
        (x % 256) as u8,
        ((x / 256) % 256) as u8,
        ((x / 65536) % 256) as u8,
        ((x / 16777216) % 256) as u8,
    ]
}

/// The 32-bit value of four little-endian bytes.
pub open spec fn le32_val(b0: u8, b1: u8, b2: u8, b3: u8) -> u32 {
    (b0 + b1 * 256 + b2 * 65536 + b3 * 16777216) as u32
}

/// The low 32 bits of a 64-bit value.
pub open spec fn u64_low(x: u64) -> u32 {
    (x % 0x1_0000_0000) as u32
}

/// The high 32 bits of a 64-bit value.
pub open spec fn u64_high(x: u64) -> u32 {
    (x / 0x1_0000_0000) as u32
}

/// A 64-bit value from its low and high halves.
pub open spec fn u64_join(lo: u32, hi: u32) -> u64 {
    (lo + hi * 0x1_0000_0000) as u64
}

/// The eight little-endian bytes of a 64-bit value.
pub open spec fn le64(x: u64) -> Seq<u8> {
    le32(u64_low(x)) + le32(u64_high(x))
}

/// The bit pattern of a signed 32-bit value, as the wire carries it.
pub open spec fn i32_bits(x: i32) -> u32 {
    if x >= 0 {
        x as u32
    } else {
        (x + 0x1_0000_0000) as u32
    }
}

/// The signed 32-bit value of a wire bit pattern.
pub open spec fn bits_i32(b: u32) -> i32 {
    if b < 0x8000_0000 {
        b as i32
    } else {
        (b - 0x1_0000_0000) as i32
    }
}

/// Splitting four little-endian bytes back out of a 32-bit value.
pub proof fn lemma_le32_roundtrip(x: u32)
    ensures
        le32(x).len() == 4,
        le32_val(le32(x)[0], le32(x)[1], le32(x)[2], le32(x)[3]) == x,
{
    let b0 = x % 256;
    let q1 = x / 256;
    let b1 = q1 % 256;
    let q2 = x / 65536;
    let b2 = q2 % 256;
    let q3 = x / 16777216;
    let b3 = q3 % 256;
    vstd::arithmetic::div_mod::lemma_fundamental_div_mod(x as int, 256);
    vstd::arithmetic::div_mod::lemma_fundamental_div_mod(q1 as int, 256);
    vstd::arithmetic::div_mod::lemma_fundamental_div_mod(q2 as int, 256);
    vstd::arithmetic::div_mod::lemma_fundamental_div_mod(q3 as int, 256);
    assert(q1 as int / 256 == q2 as int) by (nonlinear_arith)
        requires
            q1 == x / 256,
            q2 == x / 65536,
    ;
    assert(q2 as int / 256 == q3 as int) by (nonlinear_arith)
        requires
            q2 == x / 65536,
            q3 == x / 16777216,
    ;
    assert(q3 as int / 256 == 0) by (nonlinear_arith)
        requires
            q3 == x / 16777216,
            x <= 0xffff_ffff,
    ;
}

/// A 64-bit value splits into and rejoins from its halves.
pub proof fn lemma_u64_halves(x: u64)
    ensures
        u64_join(u64_low(x), u64_high(x)) == x,
{
    vstd::arithmetic::div_mod::lemma_fundamental_div_mod(x as int, 0x1_0000_0000);
}

/// The whole encoded message, from its parts.
pub open spec fn spec_encode_parts(
    rows: i32,
    cols: i32,
    mat_type: i32,
    number: u64,
    send_time: i32,
    data: Seq<u8>,
) -> Seq<u8> {
    le32(i32_bits(rows)) + le32(i32_bits(cols)) + le32(i32_bits(mat_type)) + le64(number) + le32(
        i32_bits(send_time),
    ) + le64(data.len() as u64) + data
}

/// The whole encoded message.
pub open spec fn spec_encode(m: MatMessage) -> Seq<u8> {
    spec_encode_parts(m.rows, m.cols, m.mat_type, m.number, m.send_time, m.data@)
}

/// The 32-bit header field starting at byte `off`.
pub open spec fn field_u32(b: Seq<u8>, off: int) -> u32 {
    le32_val(b[off], b[off + 1], b[off + 2], b[off + 3])
}

/// The 64-bit header field starting at byte `off`.
pub open spec fn field_u64(b: Seq<u8>, off: int) -> u64 {
    u64_join(field_u32(b, off), field_u32(b, off + 4))
}

pub open spec fn field_rows(b: Seq<u8>) -> u32 {
    field_u32(b, 0)
}

pub open spec fn field_cols(b: Seq<u8>) -> u32 {
    field_u32(b, 4)
}

pub open spec fn field_mat_type(b: Seq<u8>) -> u32 {
    field_u32(b, 8)
}

pub open spec fn field_number(b: Seq<u8>) -> u64 {
    field_u64(b, 12)
}

pub open spec fn field_send_time(b: Seq<u8>) -> u32 {
    field_u32(b, 20)
}

pub open spec fn field_data_len(b: Seq<u8>) -> u64 {
    field_u64(b, 24)
}

/// Whether a buffer decodes: long enough for the header, positive
/// dimensions representable as i32, a known channel tag, and both length
/// checks satisfied.
pub open spec fn spec_decode_ok(b: Seq<u8>) -> bool {
    &&& b.len() >= HEADER_BYTES
    &&& 1 <= field_rows(b) <= i32::MAX
    &&& 1 <= field_cols(b) <= i32::MAX
    &&& (field_mat_type(b) == 1 || field_mat_type(b) == 3)
    &&& field_data_len(b) == b.len() - HEADER_BYTES
    &&& field_data_len(b) == field_rows(b) * field_cols(b) * field_mat_type(b)
}

/// Which error a buffer that does not decode is rejected with: the first
/// failed check in decoding order.
pub open spec fn spec_decode_err(b: Seq<u8>) -> PipelineError {
    if b.len() < HEADER_BYTES {
        PipelineError::Truncated
    } else if !(1 <= field_rows(b) <= i32::MAX) || !(1 <= field_cols(b) <= i32::MAX) {
        PipelineError::BadDimensions
    } else if !(field_mat_type(b) == 1 || field_mat_type(b) == 3) {
        PipelineError::BadPixelFormat
    } else if field_data_len(b) != b.len() - HEADER_BYTES {
        PipelineError::Truncated
    } else {
        PipelineError::SizeMismatch
    }
}

/// Appends the four little-endian bytes of `x`.
fn push_u32_le(v: &mut Vec<u8>, x: u32)
    ensures
        final(v)@ == old(v)@ + le32(x),
{
    v.push((x % 256) as u8);
    v.push(((x / 256) % 256) as u8);
    v.push(((x / 65536) % 256) as u8);
    v.push(((x / 16777216) % 256) as u8);
    assert(v@ =~= old(v)@ + le32(x));
}

/// Appends the eight little-endian bytes of `x`.
fn push_u64_le(v: &mut Vec<u8>, x: u64)
    ensures
        final(v)@ == old(v)@ + le64(x),
{
    let lo = (x % 0x1_0000_0000) as u32;
    let hi = (x / 0x1_0000_0000) as u32;
    push_u32_le(v, lo);
    push_u32_le(v, hi);
    assert(v@ =~= old(v)@ + le64(x));
}

/// The wire bit pattern of a signed value.
fn bits_of_i32(x: i32) -> (r: u32)
    ensures
        r == i32_bits(x),
{
    if x >= 0 {
        x as u32
    } else {
        ((x as i64) + 0x1_0000_0000) as u32
    }
}

/// The signed value of a wire bit pattern.
fn i32_of_bits(b: u32) -> (r: i32)
    ensures
        r == bits_i32(b),
{
    if b < 0x8000_0000 {
        b as i32
    } else {
        ((b as i64) - 0x1_0000_0000) as i32
    }
}

/// The 32-bit value of the four bytes at `off`.
fn read_u32_le(b: &Vec<u8>, off: usize) -> (r: u32)
    requires
        off + 4 <= b@.len(),
    ensures
        r == field_u32(b@, off as int),
{
    proof {
        vstd::std_specs::vec::axiom_spec_len(b);
    }
    (b[off] as u32) + (b[off + 1] as u32) * 256 + (b[off + 2] as u32) * 65536 + (b[off + 3]
        as u32) * 16777216
}

/// The 64-bit value of the eight bytes at `off`.
fn read_u64_le(b: &Vec<u8>, off: usize) -> (r: u64)
    requires
        off + 8 <= b@.len(),
    ensures
        r == field_u64(b@, off as int),
{
    proof {
        vstd::std_specs::vec::axiom_spec_len(b);
    }
    let lo = read_u32_le(b, off);
    let hi = read_u32_le(b, off + 4);
    (lo as u64) + (hi as u64) * 0x1_0000_0000
}

impl MatMessage {
    /// Serializes the message in the fixed wire layout.
    pub fn encode(&self) -> (r: Vec<u8>)
        requires
            self.wf(),
        ensures
            r@ == spec_encode(*self),
    {
        let mut v: Vec<u8> = Vec::new();
        push_u32_le(&mut v, bits_of_i32(self.rows));
        push_u32_le(&mut v, bits_of_i32(self.cols));
        push_u32_le(&mut v, bits_of_i32(self.mat_type));
        push_u64_le(&mut v, self.number);
        push_u32_le(&mut v, bits_of_i32(self.send_time));
        let dlen = self.data.len();
        push_u64_le(&mut v, dlen as u64);
        v.extend_from_slice(self.data.as_slice());
        assert(v@ =~= spec_encode(*self));
        v
    }
}

/// Deserializes one message, rejecting a short buffer, non-positive or
/// unrepresentable dimensions, an unknown pixel-format tag, a payload
/// length that disagrees with the bytes present, and a payload length
/// that disagrees with the geometry — each with its own error.
pub fn decode(bytes: &Vec<u8>) -> (r: Result<MatMessage, PipelineError>)
    ensures
        r is Ok <==> spec_decode_ok(bytes@),
        r matches Ok(m) ==> {
            &&& m.wf()
            &&& m.rows == bits_i32(field_rows(bytes@))
            &&& m.cols == bits_i32(field_cols(bytes@))
            &&& m.mat_type == bits_i32(field_mat_type(bytes@))
            &&& m.number == field_number(bytes@)
            &&& m.send_time == bits_i32(field_send_time(bytes@))
            &&& m.data@ == bytes@.skip(HEADER_BYTES as int)
        },
        r matches Err(e) ==> {
            &&& e == spec_decode_err(bytes@)
            &&& (e == PipelineError::Truncated <==> (bytes@.len() < HEADER_BYTES || (bytes@.len()
                >= HEADER_BYTES && 1 <= field_rows(bytes@) <= i32::MAX && 1 <= field_cols(bytes@)
                <= i32::MAX && (field_mat_type(bytes@) == 1 || field_mat_type(bytes@) == 3)
                && field_data_len(bytes@) != bytes@.len() - HEADER_BYTES)))
            &&& (e == PipelineError::BadDimensions <==> (bytes@.len() >= HEADER_BYTES && !(1
                <= field_rows(bytes@) <= i32::MAX && 1 <= field_cols(bytes@) <= i32::MAX)))
            &&& (e == PipelineError::BadPixelFormat <==> (bytes@.len() >= HEADER_BYTES && 1
                <= field_rows(bytes@) <= i32::MAX && 1 <= field_cols(bytes@) <= i32::MAX && !(
            field_mat_type(bytes@) == 1 || field_mat_type(bytes@) == 3)))
            &&& (e == PipelineError::SizeMismatch <==> (bytes@.len() >= HEADER_BYTES && 1
                <= field_rows(bytes@) <= i32::MAX && 1 <= field_cols(bytes@) <= i32::MAX && (
            field_mat_type(bytes@) == 1 || field_mat_type(bytes@) == 3) && field_data_len(bytes@)
                == bytes@.len() - HEADER_BYTES && field_data_len(bytes@) != field_rows(bytes@)
                * field_cols(bytes@) * field_mat_type(bytes@)))
        },
{
    let total = bytes.len();
    if total < HEADER_BYTES {
        return Err(PipelineError::Truncated);
    }
    let rows_u = read_u32_le(bytes, 0);
    let cols_u = read_u32_le(bytes, 4);
    let mat_u = read_u32_le(bytes, 8);
    let number = read_u64_le(bytes, 12);
    let send_u = read_u32_le(bytes, 20);
    let dlen = read_u64_le(bytes, 24);
    if rows_u < 1 || rows_u > 0x7fff_ffff || cols_u < 1 || cols_u > 0x7fff_ffff {
        return Err(PipelineError::BadDimensions);
    }
    if mat_u != 1 && mat_u != 3 {
        return Err(PipelineError::BadPixelFormat);
    }
    if dlen != (total - HEADER_BYTES) as u64 {
        return Err(PipelineError::Truncated);
    }
    proof {
        assert((rows_u as int) * (cols_u as int) <= 0x7fff_ffff * 0x7fff_ffff)
            by (nonlinear_arith)
            requires
                rows_u <= 0x7fff_ffffu32,
                cols_u <= 0x7fff_ffffu32,
        ;
        assert((rows_u as int) * (cols_u as int) * (mat_u as int) <= (0x7fff_ffff
            * 0x7fff_ffff) * 3) by (nonlinear_arith)
            requires
                (rows_u as int) * (cols_u as int) <= 0x7fff_ffff * 0x7fff_ffff,
                mat_u <= 3u32,
                rows_u as int * cols_u as int >= 0,
        ;
    }
    let expected: u64 = (rows_u as u64) * (cols_u as u64) * (mat_u as u64);
    if dlen != expected {
        return Err(PipelineError::SizeMismatch);
    }
    let mut data: Vec<u8> = Vec::new();
    let mut j: usize = HEADER_BYTES;
    while j < total
        invariant
            HEADER_BYTES <= j <= total,
            total == bytes@.len(),
            data@.len() == j - HEADER_BYTES,
            forall|k: int| 0 <= k < j - HEADER_BYTES ==> data@[k] == bytes@[HEADER_BYTES + k],
        decreases total - j,
    {
        data.push(bytes[j]);
        j = j + 1;
    }
    assert(data@ =~= bytes@.skip(HEADER_BYTES as int));
    let m = MatMessage {
        rows: i32_of_bits(rows_u),
        cols: i32_of_bits(cols_u),
        mat_type: i32_of_bits(mat_u),
        number,
        send_time: i32_of_bits(send_u),
        data,
    };
    assert(m.wf()) by {
        assert(m.rows * m.cols * m.mat_type == (rows_u as int) * (cols_u as int) * (mat_u as int));
        assert((rows_u as int) * (cols_u as int) * (mat_u as int) == expected as int)
            by (nonlinear_arith)
            requires
                expected == (rows_u as u64) * (cols_u as u64) * (mat_u as u64),
        ;
    };
    Ok(m)
}

/// Wire round trip: an encoded well-formed message decodes, and every
/// field reads back exactly, the payload bit for bit.
#[verifier::rlimit(50)]
pub proof fn lemma_wire_roundtrip(m: MatMessage)
    requires
        m.wf(),
    ensures
        spec_decode_ok(spec_encode(m)),
        bits_i32(field_rows(spec_encode(m))) == m.rows,
        bits_i32(field_cols(spec_encode(m))) == m.cols,
        bits_i32(field_mat_type(spec_encode(m))) == m.mat_type,
        field_number(spec_encode(m)) == m.number,
        bits_i32(field_send_time(spec_encode(m))) == m.send_time,
        spec_encode(m).skip(HEADER_BYTES as int) == m.data@,
{
    let b = spec_encode(m);
    vstd::std_specs::vec::axiom_spec_len(&m.data);
    lemma_le32_roundtrip(i32_bits(m.rows));
    lemma_le32_roundtrip(i32_bits(m.cols));
    lemma_le32_roundtrip(i32_bits(m.mat_type));
    lemma_le32_roundtrip(u64_low(m.number));
    lemma_le32_roundtrip(u64_high(m.number));
    lemma_le32_roundtrip(i32_bits(m.send_time));
    lemma_le32_roundtrip(u64_low(m.data@.len() as u64));
    lemma_le32_roundtrip(u64_high(m.data@.len() as u64));
    lemma_u64_halves(m.number);
    lemma_u64_halves(m.data@.len() as u64);
    assert(b.len() == 32 + m.data@.len());
    assert(field_rows(b) == i32_bits(m.rows));
    assert(field_cols(b) == i32_bits(m.cols));
    assert(field_mat_type(b) == i32_bits(m.mat_type));
    assert(field_u32(b, 12) == u64_low(m.number));
    assert(field_u32(b, 16) == u64_high(m.number));
    assert(field_number(b) == m.number);
    assert(field_send_time(b) == i32_bits(m.send_time));
    assert(field_u32(b, 24) == u64_low(m.data@.len() as u64));
    assert(field_u32(b, 28) == u64_high(m.data@.len() as u64));
    assert(field_data_len(b) == m.data@.len() as u64);
    assert(b.skip(HEADER_BYTES as int) =~= m.data@);
    assert(1 <= field_rows(b) <= i32::MAX);
    assert(1 <= field_cols(b) <= i32::MAX);
    assert(field_data_len(b) == field_rows(b) * field_cols(b) * field_mat_type(b)) by {
        assert((m.rows as int) * (m.cols as int) * (m.mat_type as int) == m.data@.len());
        assert(field_rows(b) == m.rows && field_cols(b) == m.cols && field_mat_type(b)
            == m.mat_type);
    };
}

/// Wraps a processed or captured frame as a message carrying sequence
/// number `number`.  Fails exactly when a dimension is zero or does not
/// fit the wire's signed 32-bit fields.
pub fn from_mat(frame: &Frame, number: u64, send_time: i32) -> (r: Result<
    MatMessage,
    PipelineError,
>)
    requires
        frame.wf(),
    ensures
        r is Ok <==> (1 <= frame.width <= i32::MAX && 1 <= frame.height <= i32::MAX),
        r is Err ==> r == Result::<MatMessage, PipelineError>::Err(PipelineError::BadDimensions),
        r matches Ok(m) ==> {
            &&& m.wf()
            &&& m.rows == frame.height
            &&& m.cols == frame.width
            &&& m.mat_type == frame.channels
            &&& m.number == number
            &&& m.send_time == send_time
            &&& m.data@ == frame.data@
        },
{
    if frame.width < 1 || frame.height < 1 {
        return Err(PipelineError::BadDimensions);
    }
    if frame.width > 0x7fff_ffff || frame.height > 0x7fff_ffff {
        return Err(PipelineError::BadDimensions);
    }
    let m = MatMessage {
        rows: frame.height as i32,
        cols: frame.width as i32,
        mat_type: frame.channels as i32,
        number,
        send_time,
        data: clone_bytes(&frame.data),
    };
    assert(m.wf()) by {
        assert(m.rows * m.cols * m.mat_type == frame.width * frame.height * frame.channels)
            by (nonlinear_arith)
            requires
                m.rows == frame.height,
                m.cols == frame.width,
                m.mat_type == frame.channels,
        ;
    };
    Ok(m)
}

/// A byte-for-byte copy of a buffer.
fn clone_bytes(v: &Vec<u8>) -> (r: Vec<u8>)
    ensures
        r@ == v@,
{
    let mut r: Vec<u8> = Vec::new();
    let n = v.len();
    let mut i: usize = 0;
    while i < n
        invariant
            i <= n,
            n == v@.len(),
            r@.len() == i,
            forall|k: int| 0 <= k < i ==> r@[k] == v@[k],
        decreases n - i,
    {
        r.push(v[i]);
        i = i + 1;
    }
    assert(r@ =~= v@);
    r
}

impl MatMessage {
    /// Rebuilds the owned frame a message carries.  Fails exactly as
    /// decoding does: on non-positive dimensions, an unknown channel tag,
    /// or a payload of the wrong size.
    pub fn to_frame(&self) -> (r: Result<Frame, PipelineError>)
        ensures
            r is Ok <==> self.wf(),
            r matches Ok(f) ==> {
                &&& f.wf()
                &&& f.width == self.cols
                &&& f.height == self.rows
                &&& f.channels == self.mat_type
                &&& f.data@ == self.data@
            },
            r matches Err(e) ==> {
                &&& (e == PipelineError::BadDimensions <==> (self.rows < 1 || self.cols < 1))
                &&& (e == PipelineError::BadPixelFormat <==> (self.rows >= 1 && self.cols >= 1 && !(
                self.mat_type == 1 || self.mat_type == 3)))
                &&& (e == PipelineError::SizeMismatch <==> (self.rows >= 1 && self.cols >= 1 && (
                self.mat_type == 1 || self.mat_type == 3) && self.data@.len() != self.rows
                    * self.cols * self.mat_type))
            },
    {
        if self.rows < 1 || self.cols < 1 {
            return Err(PipelineError::BadDimensions);
        }
        if self.mat_type != 1 && self.mat_type != 3 {
            return Err(PipelineError::BadPixelFormat);
        }
        let w = self.cols as usize;
        let h = self.rows as usize;
        let ch = self.mat_type as usize;
        let n = self.data.len();
        let pixels = match w.checked_mul(h) {
            Some(p) => p,
            None => {
                // No real buffer reaches a size that overflows the word.
                proof {
                    lemma_overflowing_geometry(
                        w as int,
                        h as int,
                        ch as int,
                        self.rows as int,
                        self.cols as int,
                        self.mat_type as int,
                        n as int,
                    );
                }
                return Err(PipelineError::SizeMismatch);
            },
        };
        let expected = match pixels.checked_mul(ch) {
            Some(t) => t,
            None => {
                proof {
                    lemma_overflowing_geometry(
                        w as int,
                        h as int,
                        ch as int,
                        self.rows as int,
                        self.cols as int,
                        self.mat_type as int,
                        n as int,
                    );
                }
                return Err(PipelineError::SizeMismatch);
            },
        };
        if n != expected {
            proof {
                lemma_product_order(w as int, h as int, ch as int, self.rows as int, self.cols as int, self.mat_type as int, n as int);
            }
            return Err(PipelineError::SizeMismatch);
        }
        let f = Frame { width: w, height: h, channels: ch, data: clone_bytes(&self.data) };
        assert(f.wf() && self.wf()) by {
            lemma_product_order(w as int, h as int, ch as int, self.rows as int, self.cols as int, self.mat_type as int, n as int);
        };
        Ok(f)
    }
}

/// rows * cols * channels equals width * height * channels however the
/// factors are grouped.
proof fn lemma_product_order(w: int, h: int, ch: int, rows: int, cols: int, mat: int, n: int)
    by (nonlinear_arith)
    requires
        w == cols,
        h == rows,
        ch == mat,
    ensures
        (n == w * h * ch) <==> (n == rows * cols * mat),
{
}

/// A geometry whose pixel or byte count overflows the machine word cannot
/// match any real buffer's length.
proof fn lemma_overflowing_geometry(w: int, h: int, ch: int, rows: int, cols: int, mat: int, n: int)
    by (nonlinear_arith)
    requires
        w == cols,
        h == rows,
        ch == mat,
        1 <= ch,
        1 <= w,
        1 <= h,
        n <= usize::MAX,
        w * h > usize::MAX || w * h * ch > usize::MAX,
    ensures
        n != rows * cols * mat,
{
}

} // verus!
