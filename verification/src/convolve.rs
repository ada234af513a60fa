//! Grayscale and Sobel-edge transforms over flat pixel buffers.
//!
//! The grayscale weights are the BT.709 luma coefficients scaled by 10000,
//! so the integer quotient is exactly the floor of 0.2126 R + 0.7152 G
//! + 0.0722 B.  Sobel magnitudes use the L1 approximation |Gx| + |Gy|,
//! saturated at 255; pixels without a full 3x3 neighborhood are left at 0.

use vstd::prelude::*;

use crate::frame::PipelineError;

verus! {

/// The grayscale value of one BGR pixel: the floor of the weighted sum,
/// computed exactly in integers.  Never exceeds 255 because the weights
/// sum to 10000.
pub open spec fn gray_val(b: u8, g: u8, r: u8) -> u8 {
    ((2126 * (r as int) + 7152 * (g as int) + 722 * (b as int)) / 10000) as u8
}

/// Grayscale of a whole BGR buffer, one output byte per 3-byte pixel.
pub open spec fn grayscale_spec(bgr: Seq<u8>) -> Seq<u8> {
    Seq::new((bgr.len() / 3) as nat, |i: int| gray_val(bgr[3 * i], bgr[3 * i + 1], bgr[3 * i + 2]))
}

/// One pixel of a single-channel row-major buffer of width `w`, as an
/// unbounded integer for kernel arithmetic.
pub open spec fn px(img: Seq<u8>, w: nat, r: int, c: int) -> int {
    img[r * w + c] as int
}

/// The horizontal Sobel response at (r, c): kernel rows (-1 0 1),
/// (-2 0 2), (-1 0 1).
pub open spec fn sobel_gx(img: Seq<u8>, w: nat, r: int, c: int) -> int {
    px(img, w, r - 1, c + 1) + 2 * px(img, w, r, c + 1) + px(img, w, r + 1, c + 1) - px(
        img,
        w,
        r - 1,
        c - 1,
    ) - 2 * px(img, w, r, c - 1) - px(img, w, r + 1, c - 1)
}

/// The vertical Sobel response at (r, c): kernel rows (1 2 1), (0 0 0),
/// (-1 -2 -1).
pub open spec fn sobel_gy(img: Seq<u8>, w: nat, r: int, c: int) -> int {
    px(img, w, r - 1, c - 1) + 2 * px(img, w, r - 1, c) + px(img, w, r - 1, c + 1) - px(
        img,
        w,
        r + 1,
        c - 1,
    ) - 2 * px(img, w, r + 1, c) - px(img, w, r + 1, c + 1)
}

pub open spec fn abs_int(x: int) -> int {
    if x < 0 {
        -x
    } else {
        x
    }
}

/// The saturated L1 edge magnitude at (r, c).
pub open spec fn sobel_mag(img: Seq<u8>, w: nat, r: int, c: int) -> u8 {
    let m = abs_int(sobel_gx(img, w, r, c)) + abs_int(sobel_gy(img, w, r, c));
    if m > 255 {
        255u8
    } else {
        m as u8
    }
}

/// Whether (r, c) has a full 3x3 neighborhood inside a w-by-h image.
pub open spec fn interior(w: nat, h: nat, r: int, c: int) -> bool {
    &&& 1 <= r <= h - 2
    &&& 1 <= c <= w - 2
}

/// The whole Sobel edge map: magnitudes at interior pixels, 0 at the
/// unconvolved border.
pub open spec fn sobel_spec(img: Seq<u8>, w: nat, h: nat) -> Seq<u8> {
    Seq::new(
        (w * h) as nat,
        |k: int|
            if interior(w, h, k / (w as int), k % (w as int)) {
                sobel_mag(img, w, k / (w as int), k % (w as int))
            } else {
                0u8
            },
    )
}

/// A pixel inside a w-by-h image has a flat index inside the buffer.
pub proof fn lemma_index_bound(w: nat, h: nat, r: int, c: int)
    by (nonlinear_arith)
    requires
        0 <= r < h,
        0 <= c < w,
    ensures
        0 <= r * w + c < w * h,
        r * w + c <= (h - 1) * w + c,
{
}

/// The flat index r * w + c decomposes back into row r and column c.
pub proof fn lemma_index_decompose(w: nat, r: int, c: int)
    requires
        0 <= r,
        0 <= c < w,
    ensures
        (r * w + c) / (w as int) == r,
        (r * w + c) % (w as int) == c,
{
    vstd::arithmetic::div_mod::lemma_fundamental_div_mod_converse(
        r * w + c,
        w as int,
        r,
        c,
    );
}

/// The grayscale of a pixel is the exact floor of the weighted sum and
/// always lies in 0 ..= 255: the weights sum to one, so no clamping is
/// ever needed.
pub proof fn lemma_gray_val_range(b: u8, g: u8, r: u8)
    ensures
        gray_val(b, g, r) as int == (2126 * (r as int) + 7152 * (g as int) + 722 * (b as int))
            / 10000,
        0 <= (2126 * (r as int) + 7152 * (g as int) + 722 * (b as int)) / 10000 <= 255,
{
    let acc = 2126 * (r as int) + 7152 * (g as int) + 722 * (b as int);
    assert(0 <= acc / 10000 <= 255) by (nonlinear_arith)
        requires
            0 <= acc <= 2550000,
    ;
}

/// The exact grayscale of one pixel, in machine integers.
fn gray_pixel(b: u8, g: u8, r: u8) -> (v: u8)
    ensures
        v == gray_val(b, g, r),
{
    let acc: u32 = 2126 * (r as u32) + 7152 * (g as u32) + 722 * (b as u32);
    let q: u32 = acc / 10000;
    assert(q <= 255) by {
        assert(acc <= 2126 * 255 + 7152 * 255 + 722 * 255);
        assert(acc / 10000 <= 2550000u32 / 10000) by (nonlinear_arith)
            requires
                acc <= 2550000u32,
        ;
    };
    q as u8
}

/// Grayscale over a whole BGR buffer.  Succeeds exactly when the input
/// length is a multiple of three, the size of whole BGR pixels.
pub fn to442_grayscale(bgr: &Vec<u8>) -> (out: Result<Vec<u8>, PipelineError>)
    ensures
        out is Ok <==> bgr@.len() % 3 == 0,
        out is Err ==> out == Result::<Vec<u8>, PipelineError>::Err(PipelineError::NotBgrData),
        out matches Ok(v) ==> v@ == grayscale_spec(bgr@),
{
    let n = bgr.len();
    if n % 3 != 0 {
        return Err(PipelineError::NotBgrData);
    }
    let pixels = n / 3;
    let mut out: Vec<u8> = Vec::new();
    let mut i: usize = 0;
    while i < pixels
        invariant
            pixels == n / 3,
            n % 3 == 0,
            n == bgr@.len(),
            i <= pixels,
            out@.len() == i,
            forall|j: int|
                0 <= j < i ==> out@[j] == gray_val(bgr@[3 * j], bgr@[3 * j + 1], bgr@[3 * j + 2]),
        decreases pixels - i,
    {
        assert(3 * i + 2 < n) by {
            assert(n == 3 * (n / 3) + n % 3) by {
                vstd::arithmetic::div_mod::lemma_fundamental_div_mod(n as int, 3);
            };
        };
        let v = gray_pixel(bgr[3 * i], bgr[3 * i + 1], bgr[3 * i + 2]);
        out.push(v);
        i = i + 1;
    }
    assert(out@ =~= grayscale_spec(bgr@));
    Ok(out)
}

/// The block-at-a-time grayscale variant: four pixels (twelve bytes) per
/// step, the shape a vector unit consumes.  A performance substitute for
/// the scalar transform with the same result, as its contract states.
pub fn to442_grayscale_simd(bgr: &Vec<u8>) -> (out: Vec<u8>)
    requires
        bgr@.len() % 12 == 0,
    ensures
        out@ == grayscale_spec(bgr@),
{
    let n = bgr.len();
    proof {
        vstd::arithmetic::div_mod::lemma_mod_breakdown(n as int, 3, 4);
        vstd::arithmetic::div_mod::lemma_fundamental_div_mod(n as int, 3);
    }
    let mut out: Vec<u8> = Vec::new();
    let mut i: usize = 0;
    // One iteration handles the block of pixels 4*i .. 4*i + 4.
    while 12 * i < n
        invariant
            n % 3 == 0,
            n % 12 == 0,
            n == bgr@.len(),
            12 * i <= n + 11,
            out@.len() == 4 * i,
            4 * i <= n / 3,
            forall|j: int|
                0 <= j < 4 * i ==> out@[j] == gray_val(
                    bgr@[3 * j],
                    bgr@[3 * j + 1],
                    bgr@[3 * j + 2],
                ),
        decreases n - 12 * i,
    {
        let base = 12 * i;
        let mut lane: usize = 0;
        while lane < 4
            invariant
                base == 12 * i,
                base + 12 <= n,
                n == bgr@.len(),
                lane <= 4,
                out@.len() == 4 * i + lane,
                forall|j: int|
                    0 <= j < 4 * i + lane ==> out@[j] == gray_val(
                        bgr@[3 * j],
                        bgr@[3 * j + 1],
                        bgr@[3 * j + 2],
                    ),
            decreases 4 - lane,
        {
            let off = base + 3 * lane;
            let v = gray_pixel(bgr[off], bgr[off + 1], bgr[off + 2]);
            out.push(v);
            lane = lane + 1;
        }
        i = i + 1;
    }
    proof {
        vstd::arithmetic::div_mod::lemma_fundamental_div_mod(n as int, 12);
    }
    assert(out@ =~= grayscale_spec(bgr@));
    out
}

/// The saturated Sobel magnitude of one interior pixel, in machine
/// integers.
fn sobel_pixel(gray: &Vec<u8>, width: usize, height: usize, r: usize, c: usize) -> (v: u8)
    requires
        gray@.len() == width * height,
        1 <= r < height - 1,
        1 <= c < width - 1,
    ensures
        v == sobel_mag(gray@, width as nat, r as int, c as int),
{
    let w = width;
    let n = gray.len();
    assert(n == width * height);
    proof {
        lemma_index_bound(w as nat, height as nat, r as int - 1, c as int - 1);
        lemma_index_bound(w as nat, height as nat, r as int - 1, c as int);
        lemma_index_bound(w as nat, height as nat, r as int - 1, c as int + 1);
        lemma_index_bound(w as nat, height as nat, r as int, c as int - 1);
        lemma_index_bound(w as nat, height as nat, r as int, c as int + 1);
        lemma_index_bound(w as nat, height as nat, r as int + 1, c as int - 1);
        lemma_index_bound(w as nat, height as nat, r as int + 1, c as int);
        lemma_index_bound(w as nat, height as nat, r as int + 1, c as int + 1);
    }
    let nw = gray[(r - 1) * w + (c - 1)] as i32;
    let nn = gray[(r - 1) * w + c] as i32;
    let ne = gray[(r - 1) * w + (c + 1)] as i32;
    let ww = gray[r * w + (c - 1)] as i32;
    let ee = gray[r * w + (c + 1)] as i32;
    let sw = gray[(r + 1) * w + (c - 1)] as i32;
    let ss = gray[(r + 1) * w + c] as i32;
    let se = gray[(r + 1) * w + (c + 1)] as i32;
    let sx: i32 = ne + 2 * ee + se - nw - 2 * ww - sw;
    let sy: i32 = nw + 2 * nn + ne - sw - 2 * ss - se;
    let ax: i32 = if sx < 0 {
        -sx
    } else {
        sx
    };
    let ay: i32 = if sy < 0 {
        -sy
    } else {
        sy
    };
    let m = ax + ay;
    if m > 255 {
        255u8
    } else {
        m as u8
    }
}

/// The Sobel edge map of a single-channel buffer: magnitudes at interior
/// pixels, zero at the border, exactly `sobel_spec`.
pub fn to442_sobel(gray: &Vec<u8>, width: usize, height: usize) -> (out: Vec<u8>)
    requires
        gray@.len() == width * height,
    ensures
        out@ == sobel_spec(gray@, width as nat, height as nat),
{
    let n = gray.len();
    let mut out: Vec<u8> = vec![0u8; n];
    if width < 3 || height < 3 {
        assert(out@ =~= sobel_spec(gray@, width as nat, height as nat));
        return out;
    }
    let w = width;
    let h = height;
    let ghost img = gray@;
    let mut r: usize = 1;
    while r < h - 1
        invariant
            w == width,
            h == height,
            3 <= w,
            3 <= h,
            img == gray@,
            img.len() == w * h,
            n == w * h,
            1 <= r <= h - 1,
            out@.len() == n,
            forall|k: int|
                0 <= k < n ==> out@[k] == (if k / (w as int) < r && interior(
                    w as nat,
                    h as nat,
                    k / (w as int),
                    k % (w as int),
                ) {
                    sobel_mag(img, w as nat, k / (w as int), k % (w as int))
                } else {
                    0u8
                }),
        decreases h - r,
    {
        let mut c: usize = 1;
        while c < w - 1
            invariant
                w == width,
                h == height,
                3 <= w,
                3 <= h,
                img == gray@,
                img.len() == w * h,
                n == w * h,
                1 <= r < h - 1,
                1 <= c <= w - 1,
                out@.len() == n,
                forall|k: int|
                    0 <= k < n ==> out@[k] == (if (k / (w as int) < r || (k / (w as int) == r && k
                        % (w as int) < c)) && interior(
                        w as nat,
                        h as nat,
                        k / (w as int),
                        k % (w as int),
                    ) {
                        sobel_mag(img, w as nat, k / (w as int), k % (w as int))
                    } else {
                        0u8
                    }),
            decreases w - c,
        {
            let v = sobel_pixel(gray, w, h, r, c);
            proof {
                lemma_index_bound(w as nat, h as nat, r as int, c as int);
                lemma_index_decompose(w as nat, r as int, c as int);
            }
            let idx = r * w + c;
            out.set(idx, v);
            proof {
                assert forall|k: int| 0 <= k < n && k != idx implies #[trigger] (k / (w as int))
                    != r || k % (w as int) != c by {
                    if k / (w as int) == r && k % (w as int) == c {
                        vstd::arithmetic::div_mod::lemma_fundamental_div_mod(k, w as int);
                    }
                };
            }
            c = c + 1;
        }
        r = r + 1;
    }
    assert(out@ =~= sobel_spec(gray@, width as nat, height as nat)) by {
        assert forall|k: int| 0 <= k < n implies out@[k] == sobel_spec(
            gray@,
            width as nat,
            height as nat,
        )[k] by {
            vstd::arithmetic::div_mod::lemma_fundamental_div_mod(k, w as int);
        };
    };
    out
}

/// The block-at-a-time Sobel variant: each row's interior is walked in
/// blocks of eight columns, the shape a vector unit consumes.  A
/// performance substitute for the scalar transform with the same result,
/// as its contract states.
pub fn to442_sobel_simd(gray: &Vec<u8>, width: usize, height: usize) -> (out: Vec<u8>)
    requires
        gray@.len() == width * height,
    ensures
        out@ == sobel_spec(gray@, width as nat, height as nat),
{
    let n = gray.len();
    let mut out: Vec<u8> = vec![0u8; n];
    if width < 3 || height < 3 {
        assert(out@ =~= sobel_spec(gray@, width as nat, height as nat));
        return out;
    }
    let w = width;
    let h = height;
    let ghost img = gray@;
    let mut r: usize = 1;
    while r < h - 1
        invariant
            w == width,
            h == height,
            3 <= w,
            3 <= h,
            img == gray@,
            img.len() == w * h,
            n == w * h,
            1 <= r <= h - 1,
            out@.len() == n,
            forall|k: int|
                0 <= k < n ==> out@[k] == (if k / (w as int) < r && interior(
                    w as nat,
                    h as nat,
                    k / (w as int),
                    k % (w as int),
                ) {
                    sobel_mag(img, w as nat, k / (w as int), k % (w as int))
                } else {
                    0u8
                }),
        decreases h - r,
    {
        let mut c: usize = 1;
        while c < w - 1
            invariant
                w == width,
                h == height,
                3 <= w,
                3 <= h,
                img == gray@,
                img.len() == w * h,
                n == w * h,
                1 <= r < h - 1,
                1 <= c <= w - 1,
                out@.len() == n,
                forall|k: int|
                    0 <= k < n ==> out@[k] == (if (k / (w as int) < r || (k / (w as int) == r && k
                        % (w as int) < c)) && interior(
                        w as nat,
                        h as nat,
                        k / (w as int),
                        k % (w as int),
                    ) {
                        sobel_mag(img, w as nat, k / (w as int), k % (w as int))
                    } else {
                        0u8
                    }),
            decreases w - c,
        {
            let block_end = if w - 1 - c > 8 {
                c + 8
            } else {
                w - 1
            };
            while c < block_end
                invariant
                    w == width,
                    h == height,
                    3 <= w,
                    3 <= h,
                    img == gray@,
                    img.len() == w * h,
                    n == w * h,
                    1 <= r < h - 1,
                    1 <= c <= block_end,
                    block_end <= w - 1,
                    out@.len() == n,
                    forall|k: int|
                        0 <= k < n ==> out@[k] == (if (k / (w as int) < r || (k / (w as int) == r
                            && k % (w as int) < c)) && interior(
                            w as nat,
                            h as nat,
                            k / (w as int),
                            k % (w as int),
                        ) {
                            sobel_mag(img, w as nat, k / (w as int), k % (w as int))
                        } else {
                            0u8
                        }),
                decreases block_end - c,
            {
                let v = sobel_pixel(gray, w, h, r, c);
                proof {
                    lemma_index_bound(w as nat, h as nat, r as int, c as int);
                    lemma_index_decompose(w as nat, r as int, c as int);
                }
                let idx = r * w + c;
                out.set(idx, v);
                proof {
                    assert forall|k: int| 0 <= k < n && k != idx implies #[trigger] (k / (
                    w as int)) != r || k % (w as int) != c by {
                        if k / (w as int) == r && k % (w as int) == c {
                            vstd::arithmetic::div_mod::lemma_fundamental_div_mod(k, w as int);
                        }
                    };
                }
                c = c + 1;
            }
        }
        r = r + 1;
    }
    assert(out@ =~= sobel_spec(gray@, width as nat, height as nat)) by {
        assert forall|k: int| 0 <= k < n implies out@[k] == sobel_spec(
            gray@,
            width as nat,
            height as nat,
        )[k] by {
            vstd::arithmetic::div_mod::lemma_fundamental_div_mod(k, w as int);
        };
    };
    out
}

/// An image of one uniform intensity has edge magnitude 0 everywhere:
/// both kernels sum to zero, so every interior response vanishes, and
/// border pixels are 0 by policy.
pub proof fn lemma_sobel_uniform(img: Seq<u8>, w: nat, h: nat, v: u8)
    requires
        img.len() == w * h,
        forall|r: int, c: int|
            0 <= r < h && 0 <= c < w ==> #[trigger] px(img, w, r, c) == v as int,
    ensures
        forall|k: int| 0 <= k < w * h ==> sobel_spec(img, w, h)[k] == 0,
{
    assert forall|k: int| 0 <= k < w * h implies sobel_spec(img, w, h)[k] == 0 by {
        let r = k / (w as int);
        let c = k % (w as int);
        if interior(w, h, r, c) {
            assert(px(img, w, r - 1, c - 1) == v as int);
            assert(px(img, w, r - 1, c) == v as int);
            assert(px(img, w, r - 1, c + 1) == v as int);
            assert(px(img, w, r, c - 1) == v as int);
            assert(px(img, w, r, c + 1) == v as int);
            assert(px(img, w, r + 1, c - 1) == v as int);
            assert(px(img, w, r + 1, c) == v as int);
            assert(px(img, w, r + 1, c + 1) == v as int);
            assert(sobel_gx(img, w, r, c) == 0);
            assert(sobel_gy(img, w, r, c) == 0);
        }
    };
}

/// A hard vertical step edge saturates: where every pixel left of column
/// `c0` is 0 and every other pixel is 255, the magnitude at column `c0`
/// of every interior row is 255.
pub proof fn lemma_sobel_vertical_step(img: Seq<u8>, w: nat, h: nat, c0: int)
    requires
        img.len() == w * h,
        1 <= c0 <= w - 2,
        forall|r: int, c: int|
            0 <= r < h && 0 <= c < w ==> #[trigger] px(img, w, r, c) == (if c < c0 {
                0int
            } else {
                255int
            }),
    ensures
        forall|k: int|
            0 <= k < w * h && k % (w as int) == c0 && 1 <= k / (w as int) <= h - 2
                ==> sobel_spec(img, w, h)[k] == 255,
{
    assert forall|k: int|
        0 <= k < w * h && k % (w as int) == c0 && 1 <= k / (w as int) <= h - 2 implies sobel_spec(
        img,
        w,
        h,
    )[k] == 255 by {
        let r = k / (w as int);
        lemma_index_bound(w, h, r, c0);
        lemma_index_decompose(w, r, c0);
        vstd::arithmetic::div_mod::lemma_fundamental_div_mod(k, w as int);
        assert(k == (w as int) * r + c0);
        assert(k == r * w + c0) by (nonlinear_arith)
            requires
                k == (w as int) * r + c0,
        ;
        assert(px(img, w, r - 1, c0 - 1) == 0);
        assert(px(img, w, r, c0 - 1) == 0);
        assert(px(img, w, r + 1, c0 - 1) == 0);
        assert(px(img, w, r - 1, c0) == 255);
        assert(px(img, w, r + 1, c0) == 255);
        assert(px(img, w, r - 1, c0 + 1) == 255);
        assert(px(img, w, r, c0 + 1) == 255);
        assert(px(img, w, r + 1, c0 + 1) == 255);
        assert(sobel_gx(img, w, r, c0) == 1020);
        assert(sobel_gy(img, w, r, c0) == 0);
    };
}

} // verus!
