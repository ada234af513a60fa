//! Stripe-parallel frame processing: a frame is split into overlapping
//! row-stripes, each stripe is grayscaled and edge-filtered on its own,
//! the halo rows and unconvolved border columns are trimmed away, and the
//! trimmed stripes are stitched back together.
//!
//! A stripe carries one halo row beyond each boundary it shares with a
//! neighbour, so every row a stripe owns keeps a full 3x3 neighborhood
//! and the stitched result equals whole-frame processing exactly.

use vstd::prelude::*;

use crate::convolve::grayscale_spec;
use crate::convolve::lemma_index_bound;
use crate::convolve::lemma_index_decompose;
use crate::convolve::px;
use crate::convolve::sobel_mag;
use crate::convolve::sobel_spec;
use crate::convolve::to442_grayscale;
use crate::convolve::to442_sobel;
use crate::frame::Frame;
use crate::frame::PipelineError;

verus! {

/// Grayscale followed by Sobel: what "processing" means for one buffer,
/// whether it is a stripe or a whole frame.
pub open spec fn process_spec(data: Seq<u8>, w: nat, h: nat) -> Seq<u8> {
    sobel_spec(grayscale_spec(data), w, h)
}

/// First row of stripe `i` when the owned band is `sh` rows: one halo row
/// above the band everywhere but at the top of the frame.
pub open spec fn stripe_lo(i: int, sh: int) -> int {
    if i == 0 {
        0
    } else {
        i * sh - 1
    }
}

/// One past the last row of stripe `i`: one halo row below the band
/// everywhere but at the bottom of the frame.
pub open spec fn stripe_hi(i: int, sh: int, n: int) -> int {
    if i == n - 1 {
        n * sh
    } else {
        (i + 1) * sh + 1
    }
}

pub open spec fn stripe_height(i: int, sh: int, n: int) -> int {
    stripe_hi(i, sh, n) - stripe_lo(i, sh)
}

/// The bytes of rows `stripe_lo .. stripe_hi` of a `w`-wide, `ch`-channel
/// buffer.
pub open spec fn stripe_data(d: Seq<u8>, w: nat, ch: nat, i: int, sh: int, n: int) -> Seq<u8> {
    d.subrange(stripe_lo(i, sh) * (w * ch), stripe_hi(i, sh, n) * (w * ch))
}

/// The result rows that trimming drops from the stitched output before
/// stripe `i` begins: every earlier stripe's owned rows, less the one
/// frame-border row at the very top.
pub open spec fn rows_upto(i: int, sh: int, n: int) -> int {
    if i == 0 {
        0
    } else if i < n {
        i * sh - 1
    } else {
        n * sh - 2
    }
}

/// Splits a frame into `n` stripes of `height / n` owned rows each, with
/// one halo row on every shared boundary.
pub fn split(frame: &Frame, n: usize) -> (out: Vec<Frame>)
    requires
        frame.wf(),
        1 <= n <= frame.height,
        frame.height % n == 0,
    ensures
        out@.len() == n,
        forall|i: int|
            0 <= i < n ==> {
                let sh = frame.height as int / n as int;
                &&& (#[trigger] out@[i]).wf()
                &&& out@[i].width == frame.width
                &&& out@[i].channels == frame.channels
                &&& out@[i].height == stripe_height(i, sh, n as int)
                &&& out@[i].data@ == stripe_data(
                    frame.data@,
                    frame.width as nat,
                    frame.channels as nat,
                    i,
                    sh,
                    n as int,
                )
            },
{
    let w = frame.width;
    let h = frame.height;
    let ch = frame.channels;
    let len = frame.data.len();
    let sh = h / n;
    proof {
        vstd::arithmetic::div_mod::lemma_fundamental_div_mod(h as int, n as int);
        assert(h == n * sh);
        assert(sh >= 1) by (nonlinear_arith)
            requires
                h == n * sh,
                n as int <= h as int,
                1 <= n,
                h >= 1,
        ;
    }
    // One row of the frame occupies w * ch bytes.
    let rb = match w.checked_mul(ch) {
        Some(v) => v,
        None => {
            // A well-formed frame's row always fits: w * ch <= w * h * ch = len.
            proof {
                assert(w * ch <= w * h * ch) by (nonlinear_arith)
                    requires
                        h >= 1,
                        w >= 0,
                        ch >= 0,
                ;
                assert(false);
            }
            0
        },
    };
    proof {
        assert(w * ch <= w * h * ch) by (nonlinear_arith)
            requires
                h >= 1,
                w >= 0,
                ch >= 0,
        ;
        assert(h * rb == w * h * ch) by (nonlinear_arith)
            requires
                rb == w * ch,
        ;
    }
    let mut out: Vec<Frame> = Vec::new();
    let mut i: usize = 0;
    while i < n
        invariant
            w == frame.width,
            h == frame.height,
            ch == frame.channels,
            frame.wf(),
            len == frame.data@.len(),
            rb == w * ch,
            h == n * sh,
            sh >= 1,
            n >= 1,
            h * rb == len,
            i <= n,
            out@.len() == i,
            forall|j: int|
                0 <= j < i ==> {
                    &&& (#[trigger] out@[j]).wf()
                    &&& out@[j].width == frame.width
                    &&& out@[j].channels == frame.channels
                    &&& out@[j].height == stripe_height(j, sh as int, n as int)
                    &&& out@[j].data@ == stripe_data(
                        frame.data@,
                        frame.width as nat,
                        frame.channels as nat,
                        j,
                        sh as int,
                        n as int,
                    )
                },
        decreases n - i,
    {
        proof {
            // i * sh and its neighbours stay within h = n * sh.
            vstd::arithmetic::mul::lemma_mul_inequality(i as int, n as int, sh as int);
            vstd::arithmetic::mul::lemma_mul_inequality(i as int + 1, n as int, sh as int);
            if i >= 1 {
                assert(i * sh >= 1) by (nonlinear_arith)
                    requires
                        i >= 1,
                        sh >= 1,
                ;
            }
            if i + 1 < n {
                vstd::arithmetic::mul::lemma_mul_inequality(i as int + 1, n as int - 1, sh as int);
                assert((n as int - 1) * sh + sh == n as int * sh) by (nonlinear_arith);
            }
        }
        let lo: usize = if i == 0 {
            0
        } else {
            i * sh - 1
        };
        let hi: usize = if i == n - 1 {
            n * sh
        } else {
            (i + 1) * sh + 1
        };
        assert(lo == stripe_lo(i as int, sh as int));
        assert(hi == stripe_hi(i as int, sh as int, n as int));
        assert(lo < hi <= h) by {
            if i < n - 1 {
                vstd::arithmetic::mul::lemma_mul_inequality(i as int + 2, n as int, sh as int);
                assert((i + 2) * sh == (i + 1) * sh + sh) by (nonlinear_arith);
            }
            assert((i + 1) * sh == i * sh + sh) by (nonlinear_arith);
        };
        proof {
            vstd::arithmetic::mul::lemma_mul_inequality(lo as int, hi as int, rb as int);
            vstd::arithmetic::mul::lemma_mul_inequality(hi as int, h as int, rb as int);
        }
        let start = lo * rb;
        let stop = hi * rb;
        let mut data: Vec<u8> = Vec::new();
        let mut j = start;
        while j < stop
            invariant
                start <= j <= stop,
                stop <= len,
                len == frame.data@.len(),
                data@.len() == j - start,
                forall|k: int| 0 <= k < j - start ==> data@[k] == frame.data@[start + k],
            decreases stop - j,
        {
            data.push(frame.data[j]);
            j = j + 1;
        }
        assert(data@ =~= frame.data@.subrange(start as int, stop as int));
        let stripe = Frame { width: w, height: hi - lo, channels: ch, data };
        assert(stripe.wf()) by {
            assert((hi - lo) * rb == hi * rb - lo * rb) by (nonlinear_arith);
            assert((hi - lo) as int * (w * ch) == w * ((hi - lo) as int) * ch)
                by (nonlinear_arith);
        };
        assert(stripe.data@ == stripe_data(
            frame.data@,
            frame.width as nat,
            frame.channels as nat,
            i as int,
            sh as int,
            n as int,
        )) by {
            assert(lo as int * (rb as int) == stripe_lo(i as int, sh as int) * ((w * ch) as int));
            assert(hi as int * (rb as int) == stripe_hi(i as int, sh as int, n as int) * ((w
                * ch) as int));
        };
        out.push(stripe);
        i = i + 1;
    }
    out
}

/// Grayscale plus Sobel over one frame or stripe.  Succeeds exactly on
/// three-channel input.
pub fn process_frame(f: &Frame) -> (out: Result<Frame, PipelineError>)
    requires
        f.wf(),
    ensures
        out is Ok <==> f.channels == 3,
        out is Err ==> out == Result::<Frame, PipelineError>::Err(PipelineError::NotBgrData),
        out matches Ok(g) ==> {
            &&& g.wf()
            &&& g.width == f.width
            &&& g.height == f.height
            &&& g.channels == 1
            &&& g.data@ == process_spec(f.data@, f.width as nat, f.height as nat)
        },
{
    if f.channels != 3 {
        return Err(PipelineError::NotBgrData);
    }
    let w = f.width;
    let h = f.height;
    proof {
        assert(f.data@.len() % 3 == 0 && f.data@.len() / 3 == w * h) by (nonlinear_arith)
            requires
                f.data@.len() == w * h * 3,
        ;
    }
    let gray = match to442_grayscale(&f.data) {
        Ok(g) => g,
        Err(_) => {
            // A three-channel well-formed frame always has a byte count
            // divisible by three.
            proof {
                assert(false);
            }
            Vec::new()
        },
    };
    let edges = to442_sobel(&gray, w, h);
    let g = Frame { width: w, height: h, channels: 1, data: edges };
    assert(g.wf()) by {
        assert(w * h * 1 == (w * h) as int) by (nonlinear_arith);
    };
    Ok(g)
}

/// Processes each stripe independently; the stripes share nothing, so a
/// host may run them in parallel without changing the result.  Succeeds
/// exactly when every stripe is three-channel.
pub fn do_sobel_parallel(stripes: &Vec<Frame>) -> (out: Result<Vec<Frame>, PipelineError>)
    requires
        forall|i: int| 0 <= i < stripes@.len() ==> (#[trigger] stripes@[i]).wf(),
    ensures
        out is Ok <==> (forall|i: int|
            0 <= i < stripes@.len() ==> (#[trigger] stripes@[i]).channels == 3),
        out is Err ==> out == Result::<Vec<Frame>, PipelineError>::Err(PipelineError::NotBgrData),
        out matches Ok(rs) ==> {
            &&& rs@.len() == stripes@.len()
            &&& forall|i: int|
                0 <= i < stripes@.len() ==> {
                    &&& (#[trigger] rs@[i]).wf()
                    &&& rs@[i].width == stripes@[i].width
                    &&& rs@[i].height == stripes@[i].height
                    &&& rs@[i].channels == 1
                    &&& rs@[i].data@ == process_spec(
                        stripes@[i].data@,
                        stripes@[i].width as nat,
                        stripes@[i].height as nat,
                    )
                }
        },
{
    let mut rs: Vec<Frame> = Vec::new();
    let mut i: usize = 0;
    let count = stripes.len();
    while i < count
        invariant
            count == stripes@.len(),
            i <= count,
            forall|j: int| 0 <= j < count ==> (#[trigger] stripes@[j]).wf(),
            forall|j: int| 0 <= j < i ==> (#[trigger] stripes@[j]).channels == 3,
            rs@.len() == i,
            forall|j: int|
                0 <= j < i ==> {
                    &&& (#[trigger] rs@[j]).wf()
                    &&& rs@[j].width == stripes@[j].width
                    &&& rs@[j].height == stripes@[j].height
                    &&& rs@[j].channels == 1
                    &&& rs@[j].data@ == process_spec(
                        stripes@[j].data@,
                        stripes@[j].width as nat,
                        stripes@[j].height as nat,
                    )
                },
        decreases count - i,
    {
        match process_frame(&stripes[i]) {
            Ok(g) => {
                rs.push(g);
            },
            Err(e) => {
                return Err(e);
            },
        }
        i = i + 1;
    }
    Ok(rs)
}

/// The bytes kept after dropping the first and last row and the first and
/// last column of a w-by-h single-channel buffer.
pub open spec fn trim_spec(d: Seq<u8>, w: nat, h: nat) -> Seq<u8> {
    Seq::new(
        ((h - 2) * (w - 2)) as nat,
        |k: int| d[(1 + k / (w - 2)) * w + 1 + k % (w - 2)],
    )
}

/// Drops the halo rows and the unconvolved border columns of a processed
/// stripe, keeping exactly the pixels that had a full 3x3 neighborhood.
pub fn trim(f: &Frame) -> (out: Frame)
    requires
        f.wf(),
        f.channels == 1,
        f.width >= 2,
        f.height >= 2,
    ensures
        out.wf(),
        out.width == f.width - 2,
        out.height == f.height - 2,
        out.channels == 1,
        out.data@ == trim_spec(f.data@, f.width as nat, f.height as nat),
{
    let w = f.width;
    let h = f.height;
    let len = f.data.len();
    proof {
        assert(w * h * 1 == w * h) by (nonlinear_arith);
    }
    let mut data: Vec<u8> = Vec::new();
    let mut rr: usize = 0;
    while rr < h - 2
        invariant
            w == f.width,
            h == f.height,
            2 <= w,
            2 <= h,
            len == f.data@.len(),
            len == w * h,
            rr <= h - 2,
            data@.len() == rr * (w - 2),
            forall|k: int|
                0 <= k < data@.len() ==> data@[k] == f.data@[(1 + k / (w - 2)) * w + 1 + k % (w
                    - 2)],
        decreases h - 2 - rr,
    {
        let mut cc: usize = 0;
        while cc < w - 2
            invariant
                w == f.width,
                h == f.height,
                2 <= w,
                2 <= h,
                len == f.data@.len(),
                len == w * h,
                rr < h - 2,
                cc <= w - 2,
                data@.len() == rr * (w - 2) + cc,
                forall|k: int|
                    0 <= k < data@.len() ==> data@[k] == f.data@[(1 + k / (w - 2)) * w + 1 + k % (
                    w - 2)],
            decreases w - 2 - cc,
        {
            proof {
                lemma_index_bound(w as nat, h as nat, rr as int + 1, cc as int + 1);
                lemma_index_decompose((w - 2) as nat, rr as int, cc as int);
            }
            let src = (rr + 1) * w + (cc + 1);
            data.push(f.data[src]);
            cc = cc + 1;
        }
        proof {
            assert(rr as int * (w - 2) + (w - 2) == (rr + 1) as int * (w - 2)) by (nonlinear_arith);
        }
        rr = rr + 1;
    }
    proof {
        assert(data@ =~= trim_spec(f.data@, f.width as nat, f.height as nat));
    }
    let out = Frame { width: w - 2, height: h - 2, channels: 1, data };
    assert(out.wf()) by {
        assert(((h - 2) * (w - 2)) as int == (w - 2) as int * ((h - 2) as int) * 1)
            by (nonlinear_arith);
    };
    out
}

/// The total height of a run of stripes.
pub open spec fn heights_sum(ss: Seq<Frame>) -> int
    decreases ss.len(),
{
    if ss.len() == 0 {
        0
    } else {
        heights_sum(ss.drop_last()) + ss.last().height
    }
}

/// The bytes of a run of stripes, in stripe order.
pub open spec fn cat_data(ss: Seq<Frame>) -> Seq<u8>
    decreases ss.len(),
{
    if ss.len() == 0 {
        Seq::empty()
    } else {
        cat_data(ss.drop_last()) + ss.last().data@
    }
}

/// Concatenating equal-width single-run stripes yields a buffer whose
/// length matches the summed height.
proof fn lemma_cat_data_len(ss: Seq<Frame>, w: nat, ch: nat)
    requires
        forall|i: int|
            0 <= i < ss.len() ==> (#[trigger] ss[i]).wf() && ss[i].width == w && ss[i].channels
                == ch,
    ensures
        cat_data(ss).len() == w * heights_sum(ss) * ch,
        heights_sum(ss) >= 0,
    decreases ss.len(),
{
    if ss.len() == 0 {
        assert(w * 0 * ch == 0) by (nonlinear_arith);
    } else {
        lemma_cat_data_len(ss.drop_last(), w, ch);
        let rest = heights_sum(ss.drop_last());
        let hh = ss.last().height as int;
        assert(ss.last().data@.len() == w * hh * ch);
        assert(w * (rest + hh) * ch == w * rest * ch + w * hh * ch) by (nonlinear_arith);
    }
}

/// Concatenates trimmed stripes in order into one frame.  Fails only when
/// the summed height overflows the machine word.
pub fn stitch(stripes: &Vec<Frame>) -> (out: Result<Frame, PipelineError>)
    requires
        stripes@.len() >= 1,
        forall|i: int| 0 <= i < stripes@.len() ==> (#[trigger] stripes@[i]).wf(),
        forall|i: int|
            0 <= i < stripes@.len() ==> (#[trigger] stripes@[i]).width == stripes@[0].width,
        forall|i: int|
            0 <= i < stripes@.len() ==> (#[trigger] stripes@[i]).channels == stripes@[0].channels,
    ensures
        out is Ok <==> heights_sum(stripes@) <= usize::MAX,
        out is Err ==> out == Result::<Frame, PipelineError>::Err(PipelineError::TooLarge),
        out matches Ok(f) ==> {
            &&& f.wf()
            &&& f.width == stripes@[0].width
            &&& f.channels == stripes@[0].channels
            &&& f.height == heights_sum(stripes@)
            &&& f.data@ == cat_data(stripes@)
        },
{
    let count = stripes.len();
    let mut data: Vec<u8> = Vec::new();
    let mut total_h: usize = 0;
    let mut i: usize = 0;
    while i < count
        invariant
            count == stripes@.len(),
            count >= 1,
            i <= count,
            forall|j: int| 0 <= j < count ==> (#[trigger] stripes@[j]).wf(),
            forall|j: int|
                0 <= j < count ==> (#[trigger] stripes@[j]).width == stripes@[0].width,
            forall|j: int|
                0 <= j < count ==> (#[trigger] stripes@[j]).channels == stripes@[0].channels,
            total_h == heights_sum(stripes@.subrange(0, i as int)),
            data@ == cat_data(stripes@.subrange(0, i as int)),
        decreases count - i,
    {
        proof {
            lemma_heights_sum_mono(stripes@, i as int);
        }
        total_h = match total_h.checked_add(stripes[i].height) {
            Some(t) => t,
            None => {
                return Err(PipelineError::TooLarge);
            },
        };
        data.extend_from_slice(stripes[i].data.as_slice());
        proof {
            let pre = stripes@.subrange(0, i as int);
            let post = stripes@.subrange(0, i as int + 1);
            assert(post.drop_last() =~= pre);
            assert(post.last() == stripes@[i as int]);
        }
        i = i + 1;
    }
    proof {
        assert(stripes@.subrange(0, count as int) =~= stripes@);
        lemma_cat_data_len(stripes@, stripes@[0].width as nat, stripes@[0].channels as nat);
    }
    let f = Frame {
        width: stripes[0].width,
        height: total_h,
        channels: stripes[0].channels,
        data,
    };
    Ok(f)
}

/// The trimmed output of stripe `i`: its rows grayscaled, edge-filtered
/// and stripped of halo rows and border columns.
pub open spec fn stripe_out(d: Seq<u8>, w: nat, sh: int, n: int, i: int) -> Seq<u8> {
    trim_spec(
        process_spec(stripe_data(d, w, 3, i, sh, n), w, stripe_height(i, sh, n) as nat),
        w,
        stripe_height(i, sh, n) as nat,
    )
}

/// The trimmed outputs of stripes `0 .. i`, concatenated in stripe order:
/// what stitching the first `i` stripes produces.
pub open spec fn cat_outputs(d: Seq<u8>, w: nat, sh: int, n: int, i: int) -> Seq<u8>
    decreases i,
{
    if i <= 0 {
        Seq::empty()
    } else {
        cat_outputs(d, w, sh, n, i - 1) + stripe_out(d, w, sh, n, i - 1)
    }
}

/// A pixel read from a band of rows equals the same pixel read from the
/// whole buffer, shifted by the band's first row.
proof fn lemma_px_stripe(g: Seq<u8>, w: nat, h: nat, lo: int, hi: int, r: int, c: int)
    requires
        g.len() == w * h,
        0 <= lo <= hi <= h,
        0 <= r < hi - lo,
        0 <= c < w,
    ensures
        px(g.subrange(lo * w, hi * w), w, r, c) == px(g, w, lo + r, c),
{
    let wi = w as int;
    let sub = g.subrange(lo * wi, hi * wi);
    vstd::arithmetic::mul::lemma_mul_inequality(hi, h as int, wi);
    vstd::arithmetic::mul::lemma_mul_inequality(lo, hi, wi);
    assert(w * h == h as int * wi) by (nonlinear_arith)
        requires
            wi == w,
    ;
    lemma_index_bound(w, (hi - lo) as nat, r, c);
    assert(r * wi + c < ((hi - lo) as nat) * wi) by (nonlinear_arith)
        requires
            r * wi + c < wi * (((hi - lo) as nat) as int),
    ;
    assert(((hi - lo) as nat) * wi == hi * wi - lo * wi) by (nonlinear_arith)
        requires
            hi - lo >= 0,
    ;
    assert(sub[r * wi + c] == g[lo * wi + (r * wi + c)]);
    assert(lo * wi + (r * wi + c) == (lo + r) * wi + c) by (nonlinear_arith);
}

/// Grayscale commutes with taking a band of rows: the grayscale of a
/// stripe's bytes is the matching band of the whole frame's grayscale.
proof fn lemma_grayscale_stripe(d: Seq<u8>, w: nat, h: nat, lo: int, hi: int)
    requires
        d.len() == w * h * 3,
        0 <= lo <= hi <= h,
    ensures
        grayscale_spec(d.subrange(lo * (w * 3), hi * (w * 3))) =~= grayscale_spec(d).subrange(
            lo * w,
            hi * w,
        ),
{
    let wi = w as int;
    let sub = d.subrange(lo * (w * 3), hi * (w * 3));
    assert(hi * (w * 3) <= h as int * (w * 3)) by {
        vstd::arithmetic::mul::lemma_mul_inequality(hi, h as int, w as int * 3);
    };
    assert(lo * (w * 3) <= hi * (w * 3)) by {
        vstd::arithmetic::mul::lemma_mul_inequality(lo, hi, w as int * 3);
    };
    assert(h as int * (w * 3) == w * h * 3) by (nonlinear_arith);
    assert(sub.len() == (hi - lo) * (wi * 3)) by (nonlinear_arith)
        requires
            sub.len() == hi * (wi * 3) - lo * (wi * 3),
    ;
    assert(sub.len() / 3 == (hi - lo) * wi) by (nonlinear_arith)
        requires
            sub.len() == (hi - lo) * (wi * 3),
            hi - lo >= 0,
    ;
    assert(d.len() / 3 == w * h) by (nonlinear_arith)
        requires
            d.len() == w * h * 3,
    ;
    let gw = grayscale_spec(d);
    let gs = grayscale_spec(sub);
    assert(hi * wi <= gw.len()) by {
        vstd::arithmetic::mul::lemma_mul_inequality(hi, h as int, wi);
        assert(h as int * wi == w * h) by (nonlinear_arith)
            requires
                wi == w,
        ;
    };
    assert(lo * wi <= hi * wi) by {
        vstd::arithmetic::mul::lemma_mul_inequality(lo, hi, wi);
    };
    assert forall|j: int| 0 <= j < (hi - lo) * wi implies gs[j] == gw.subrange(lo * wi, hi * wi)[j]
        by {
        assert(3 * j + 2 < sub.len()) by (nonlinear_arith)
            requires
                0 <= j < (hi - lo) * wi,
                sub.len() == (hi - lo) * (wi * 3),
        ;
        assert(lo * wi + j < hi * wi) by (nonlinear_arith)
            requires
                0 <= j < (hi - lo) * wi,
        ;
        assert(3 * (lo * wi + j) + 2 < d.len()) by (nonlinear_arith)
            requires
                lo * wi + j < hi * wi,
                hi <= h,
                d.len() == w * h * 3,
                wi == w,
        ;
        assert(lo * (wi * 3) + 3 * j == 3 * (lo * wi + j)) by (nonlinear_arith);
        assert(sub[3 * j] == d[3 * (lo * wi + j)]);
        assert(sub[3 * j + 1] == d[3 * (lo * wi + j) + 1]);
        assert(sub[3 * j + 2] == d[3 * (lo * wi + j) + 2]);
    };
    assert(hi * wi - lo * wi == (hi - lo) * wi) by (nonlinear_arith);
    assert(gs.len() == (hi - lo) * wi);
    assert(gw.subrange(lo * wi, hi * wi).len() == (hi - lo) * wi);
    assert(gs =~= gw.subrange(lo * wi, hi * wi));
}

/// The Sobel magnitude at an interior pixel of a stripe equals the
/// magnitude at the corresponding pixel of the whole image: the stripe's
/// halo rows supply the full neighborhood.
proof fn lemma_sobel_stripe_interior(g: Seq<u8>, w: nat, h: nat, lo: int, hi: int, rr: int, cc: int)
    requires
        g.len() == w * h,
        0 <= lo < hi <= h,
        1 <= rr <= (hi - lo) - 2,
        1 <= cc <= w - 2,
    ensures
        sobel_spec(g.subrange(lo * w, hi * w), w, (hi - lo) as nat)[rr * w + cc] == sobel_mag(
            g,
            w,
            lo + rr,
            cc,
        ),
{
    let hs = (hi - lo) as nat;
    let gi = g.subrange(lo * w, hi * w);
    vstd::arithmetic::mul::lemma_mul_inequality(hi, h as int, w as int);
    vstd::arithmetic::mul::lemma_mul_inequality(lo, hi, w as int);
    assert(w * h == h as int * w) by (nonlinear_arith);
    assert(hi * w - lo * w == (hi - lo) * w) by (nonlinear_arith);
    assert(gi.len() == w * hs) by (nonlinear_arith)
        requires
            gi.len() == (hi - lo) * (w as int),
            hs == hi - lo,
    ;
    lemma_index_bound(w, hs, rr, cc);
    lemma_index_decompose(w, rr, cc);
    lemma_px_stripe(g, w, h, lo, hi, rr - 1, cc - 1);
    lemma_px_stripe(g, w, h, lo, hi, rr - 1, cc);
    lemma_px_stripe(g, w, h, lo, hi, rr - 1, cc + 1);
    lemma_px_stripe(g, w, h, lo, hi, rr, cc - 1);
    lemma_px_stripe(g, w, h, lo, hi, rr, cc + 1);
    lemma_px_stripe(g, w, h, lo, hi, rr + 1, cc - 1);
    lemma_px_stripe(g, w, h, lo, hi, rr + 1, cc);
    lemma_px_stripe(g, w, h, lo, hi, rr + 1, cc + 1);
    assert(lo + (rr - 1) == (lo + rr) - 1);
    assert(lo + (rr + 1) == (lo + rr) + 1);
    assert(sobel_mag(gi, w, rr, cc) == sobel_mag(g, w, lo + rr, cc));
}

/// Facts about the stripe layout that every tiling proof needs: where
/// each stripe starts and ends, and how many trimmed rows precede it.
proof fn lemma_stripe_layout(h: nat, sh: int, n: int, i: int)
    requires
        1 <= n,
        sh >= 1,
        h == n * sh,
        h >= 2,
        0 <= i < n,
    ensures
        0 <= stripe_lo(i, sh) < stripe_hi(i, sh, n) <= h,
        stripe_height(i, sh, n) >= 2,
        rows_upto(i, sh, n) == stripe_lo(i, sh) || (i == 0 && rows_upto(i, sh, n) == 0),
        rows_upto(i + 1, sh, n) - rows_upto(i, sh, n) == stripe_height(i, sh, n) - 2,
        rows_upto(i, sh, n) >= 0,
        rows_upto(i + 1, sh, n) <= h - 2,
        rows_upto(n, sh, n) == h - 2,
{
    assert((i + 1) * sh == i * sh + sh) by (nonlinear_arith);
    assert((i + 2) * sh == i * sh + sh + sh) by (nonlinear_arith);
    if i >= 1 {
        assert(i * sh >= sh) by (nonlinear_arith)
            requires
                i >= 1,
                sh >= 1,
        ;
    }
    vstd::arithmetic::mul::lemma_mul_inequality(i + 1, n, sh);
    if i + 1 < n {
        vstd::arithmetic::mul::lemma_mul_inequality(i + 2, n, sh);
    }
}

/// The trimmed output of one stripe is exactly its window of the whole
/// frame's trimmed output.
proof fn lemma_stripe_out_matches(d: Seq<u8>, w: nat, h: nat, n: int, i: int)
    requires
        d.len() == w * h * 3,
        w >= 2,
        h >= 2,
        1 <= n <= h,
        (h as int) % n == 0,
        0 <= i < n,
    ensures
        stripe_out(d, w, h as int / n, n, i) =~= trim_spec(
            process_spec(d, w, h),
            w,
            h,
        ).subrange(
            rows_upto(i, h as int / n, n) * ((w - 2) as int),
            rows_upto(i + 1, h as int / n, n) * ((w - 2) as int),
        ),
{
    let sh = h as int / n;
    vstd::arithmetic::div_mod::lemma_fundamental_div_mod(h as int, n);
    assert(h == n * sh);
    assert(sh >= 1) by (nonlinear_arith)
        requires
            h == n * sh,
            n <= h,
            1 <= n,
            h >= 1,
    ;
    lemma_stripe_layout(h, sh, n, i);
    let lo = stripe_lo(i, sh);
    let hi = stripe_hi(i, sh, n);
    let hs = stripe_height(i, sh, n);
    let w2 = (w - 2) as int;
    let ru = rows_upto(i, sh, n);
    let ru1 = rows_upto(i + 1, sh, n);
    lemma_grayscale_stripe(d, w, h, lo, hi);
    let gw = grayscale_spec(d);
    assert(gw.len() == w * h) by (nonlinear_arith)
        requires
            gw.len() == d.len() / 3,
            d.len() == w * h * 3,
    ;
    let gi = grayscale_spec(stripe_data(d, w, 3, i, sh, n));
    assert(stripe_data(d, w, 3, i, sh, n) == d.subrange(lo * (w * 3), hi * (w * 3)));
    assert(gi =~= gw.subrange(lo * w, hi * w));
    let si = sobel_spec(gi, w, hs as nat);
    let sw = sobel_spec(gw, w, h);
    let lhs = trim_spec(si, w, hs as nat);
    let whole = trim_spec(sw, w, h);
    assert(lhs.len() == (hs - 2) * w2);
    assert(whole.len() == (h - 2) * w2);
    assert(ru1 * w2 - ru * w2 == (hs - 2) * w2) by (nonlinear_arith)
        requires
            ru1 - ru == hs - 2,
    ;
    assert(ru1 * w2 <= (h - 2) * w2) by {
        vstd::arithmetic::mul::lemma_mul_inequality(ru1, h as int - 2, w2);
    };
    assert(ru * w2 >= 0) by (nonlinear_arith)
        requires
            ru >= 0,
            w2 >= 0,
    ;
    let rhs = whole.subrange(ru * w2, ru1 * w2);
    assert forall|k: int| 0 <= k < (hs - 2) * w2 implies lhs[k] == rhs[k] by {
        let q = k / w2;
        let m = k % w2;
        vstd::arithmetic::div_mod::lemma_fundamental_div_mod(k, w2);
        assert(0 <= m < w2);
        assert(q < hs - 2) by (nonlinear_arith)
            requires
                k == w2 * q + m,
                0 <= m < w2,
                k < (hs - 2) * w2,
                w2 >= 1,
        ;
        assert(q >= 0) by (nonlinear_arith)
            requires
                k == w2 * q + m,
                m < w2,
                k >= 0,
                w2 >= 1,
        ;
        // The left side reads the stripe's interior pixel (1 + q, 1 + m).
        lemma_sobel_stripe_interior(gw, w, h, lo, hi, 1 + q, 1 + m);
        assert(lhs[k] == si[(1 + q) * w + 1 + m]);
        assert(lhs[k] == sobel_mag(gw, w, lo + 1 + q, 1 + m));
        // The right side reads the whole frame's trimmed pixel at row
        // ru + q, which sits at global row lo + 1 + q.
        let kk = ru * w2 + k;
        assert(kk == w2 * (ru + q) + m) by (nonlinear_arith)
            requires
                kk == ru * w2 + k,
                k == w2 * q + m,
        ;
        vstd::arithmetic::div_mod::lemma_fundamental_div_mod_converse(kk, w2, ru + q, m);
        assert(rhs[k] == whole[kk]);
        assert(0 <= kk < (h - 2) * w2) by (nonlinear_arith)
            requires
                0 <= k < (hs - 2) * w2,
                kk == w2 * (ru + q) + m,
                ru + q <= h - 3,
                0 <= m < w2,
                ru >= 0,
                q >= 0,
                w2 >= 1,
        ;
        assert(whole[kk] == sw[(1 + ru + q) * w + 1 + m]);
        let gr = lo + 1 + q;
        assert(1 + ru + q == gr);
        assert(1 <= gr <= h - 2);
        lemma_index_bound(w, h, gr, 1 + m);
        lemma_index_decompose(w, gr, 1 + m);
        assert(sw[gr * w + 1 + m] == sobel_mag(gw, w, gr, 1 + m));
    };
}

/// Tiling equivalence: splitting a frame into `n` haloed stripes,
/// processing each stripe on its own, trimming and stitching yields
/// byte-for-byte the trimmed whole-frame result.
pub proof fn lemma_tiling_equivalence(d: Seq<u8>, w: nat, h: nat, n: int)
    requires
        d.len() == w * h * 3,
        w >= 2,
        h >= 2,
        1 <= n <= h,
        (h as int) % n == 0,
    ensures
        cat_outputs(d, w, h as int / n, n, n) =~= trim_spec(process_spec(d, w, h), w, h),
{
    let sh = h as int / n;
    vstd::arithmetic::div_mod::lemma_fundamental_div_mod(h as int, n);
    assert(sh >= 1) by (nonlinear_arith)
        requires
            h == n * sh,
            n <= h,
            1 <= n,
            h >= 1,
    ;
    lemma_cat_outputs_prefix(d, w, h, n, n);
    lemma_stripe_layout(h, sh, n, n - 1);
    let whole = trim_spec(process_spec(d, w, h), w, h);
    assert(rows_upto(n, sh, n) * ((w - 2) as int) == whole.len()) by (nonlinear_arith)
        requires
            rows_upto(n, sh, n) == h - 2,
            whole.len() == (h - 2) * ((w - 2) as int),
    ;
    assert(cat_outputs(d, w, sh, n, n) =~= whole.subrange(0, whole.len() as int));
    assert(whole.subrange(0, whole.len() as int) =~= whole);
}

/// The first `i` stitched stripe outputs are the first `rows_upto(i)`
/// trimmed rows of the whole-frame result.
proof fn lemma_cat_outputs_prefix(d: Seq<u8>, w: nat, h: nat, n: int, i: int)
    requires
        d.len() == w * h * 3,
        w >= 2,
        h >= 2,
        1 <= n <= h,
        (h as int) % n == 0,
        0 <= i <= n,
    ensures
        cat_outputs(d, w, h as int / n, n, i) =~= trim_spec(
            process_spec(d, w, h),
            w,
            h,
        ).subrange(0, rows_upto(i, h as int / n, n) * ((w - 2) as int)),
    decreases i,
{
    let sh = h as int / n;
    let w2 = (w - 2) as int;
    let whole = trim_spec(process_spec(d, w, h), w, h);
    vstd::arithmetic::div_mod::lemma_fundamental_div_mod(h as int, n);
    assert(sh >= 1) by (nonlinear_arith)
        requires
            h == n * sh,
            n <= h,
            1 <= n,
            h >= 1,
    ;
    if i == 0 {
        assert(cat_outputs(d, w, sh, n, 0) =~= whole.subrange(0, 0));
    } else {
        lemma_cat_outputs_prefix(d, w, h, n, i - 1);
        lemma_stripe_out_matches(d, w, h, n, i - 1);
        lemma_stripe_layout(h, sh, n, i - 1);
        let a = rows_upto(i - 1, sh, n) * w2;
        let b = rows_upto(i, sh, n) * w2;
        assert(0 <= a <= b <= whole.len()) by (nonlinear_arith)
            requires
                rows_upto(i - 1, sh, n) >= 0,
                rows_upto(i, sh, n) >= rows_upto(i - 1, sh, n),
                rows_upto(i, sh, n) <= h - 2,
                whole.len() == (h - 2) * w2,
                a == rows_upto(i - 1, sh, n) * w2,
                b == rows_upto(i, sh, n) * w2,
                w2 >= 0,
        ;
        assert(cat_outputs(d, w, sh, n, i) =~= whole.subrange(0, a) + whole.subrange(a, b));
        assert(whole.subrange(0, a) + whole.subrange(a, b) =~= whole.subrange(0, b));
        assert(cat_outputs(d, w, sh, n, i) == whole.subrange(0, b));
    }
    assert(cat_outputs(d, w, sh, n, i) == whole.subrange(0, rows_upto(i, sh, n) * w2));
}

/// A run of trimmed stripe outputs concatenates to `cat_outputs`, and its
/// heights sum to the trimmed row count before the next stripe.
proof fn lemma_trimmed_run(ts: Seq<Frame>, d: Seq<u8>, w: nat, h: nat, sh: int, n: int, i: int)
    requires
        0 <= i <= n,
        ts.len() == i,
        1 <= n,
        sh >= 1,
        h == n * sh,
        h >= 2,
        forall|j: int| 0 <= j < i ==> (#[trigger] ts[j]).data@ == stripe_out(d, w, sh, n, j),
        forall|j: int| 0 <= j < i ==> (#[trigger] ts[j]).height == stripe_height(j, sh, n) - 2,
    ensures
        cat_data(ts) == cat_outputs(d, w, sh, n, i),
        heights_sum(ts) == rows_upto(i, sh, n),
    decreases i,
{
    if i > 0 {
        let rest = ts.drop_last();
        assert(rest.len() == i - 1);
        assert(forall|j: int| 0 <= j < i - 1 ==> (#[trigger] rest[j]).data@ == ts[j].data@);
        assert(forall|j: int| 0 <= j < i - 1 ==> (#[trigger] rest[j]).height == ts[j].height);
        lemma_trimmed_run(rest, d, w, h, sh, n, i - 1);
        lemma_stripe_layout(h, sh, n, i - 1);
        assert(ts.last() == ts[i - 1]);
    }
}

/// Every partial height sum is bounded by any later one: heights are
/// non-negative, so overflow of a prefix implies overflow of the total.
proof fn lemma_heights_sum_mono(ss: Seq<Frame>, i: int)
    requires
        0 <= i < ss.len(),
    ensures
        heights_sum(ss.subrange(0, i)) + ss[i].height == heights_sum(ss.subrange(0, i + 1)),
        heights_sum(ss.subrange(0, i + 1)) <= heights_sum(ss),
    decreases ss.len(),
{
    let post = ss.subrange(0, i + 1);
    assert(post.drop_last() =~= ss.subrange(0, i));
    if i + 1 < ss.len() {
        let whole_minus = ss.drop_last();
        assert(ss.subrange(0, i) =~= whole_minus.subrange(0, i));
        assert(ss.subrange(0, i + 1) =~= whole_minus.subrange(0, i + 1));
        lemma_heights_sum_mono(whole_minus, i);
    } else {
        assert(ss.subrange(0, i + 1) =~= ss);
    }
}

/// How many stripes a frame is divided into.
pub const STRIPE_COUNT: usize = 4;

/// Whether a frame has the shape the stripe pipeline handles: colour
/// pixels, at least two columns, and a height divisible into the fixed
/// stripe count.
pub open spec fn frame_processable(f: Frame) -> bool {
    &&& f.channels == 3
    &&& f.width >= 2
    &&& f.height >= STRIPE_COUNT
    &&& f.height as int % STRIPE_COUNT as int == 0
}

/// The whole per-frame pipeline: split into haloed stripes, grayscale and
/// edge-filter each stripe, trim the halos and border columns, stitch in
/// order.  The contract states the result as whole-frame processing: the
/// stitched bytes are exactly the trimmed whole-frame edge map.
pub fn do_frame(frame: &Frame) -> (out: Result<Frame, PipelineError>)
    requires
        frame.wf(),
    ensures
        out is Ok <==> frame_processable(*frame),
        out == Result::<Frame, PipelineError>::Err(PipelineError::NotBgrData) <==> frame.channels
            != 3,
        out == Result::<Frame, PipelineError>::Err(PipelineError::BadShape) <==> (frame.channels
            == 3 && !frame_processable(*frame)),
        out matches Ok(g) ==> {
            &&& g.wf()
            &&& g.width == frame.width - 2
            &&& g.height == frame.height - 2
            &&& g.channels == 1
            &&& g.data@ == trim_spec(
                process_spec(frame.data@, frame.width as nat, frame.height as nat),
                frame.width as nat,
                frame.height as nat,
            )
        },
{
    if frame.channels != 3 {
        return Err(PipelineError::NotBgrData);
    }
    if frame.width < 2 || frame.height < STRIPE_COUNT || frame.height % STRIPE_COUNT != 0 {
        return Err(PipelineError::BadShape);
    }
    let w = frame.width;
    let h = frame.height;
    let n = STRIPE_COUNT;
    let ghost d = frame.data@;
    let ghost sh = h as int / n as int;
    proof {
        vstd::arithmetic::div_mod::lemma_fundamental_div_mod(h as int, n as int);
        assert(sh >= 1) by (nonlinear_arith)
            requires
                h as int == n as int * sh,
                n as int <= h as int,
                1 <= n as int,
                h >= 1,
        ;
    }
    let stripes = split(frame, n);
    let processed = match do_sobel_parallel(&stripes) {
        Ok(p) => p,
        Err(_) => {
            // Every stripe of a colour frame is itself colour.
            proof {
                assert(false);
            }
            return Err(PipelineError::BadShape);
        },
    };
    let mut trimmed: Vec<Frame> = Vec::new();
    let mut i: usize = 0;
    while i < n
        invariant
            w == frame.width,
            h == frame.height,
            frame.wf(),
            frame.channels == 3,
            d == frame.data@,
            2 <= w,
            n == STRIPE_COUNT,
            n as int <= h as int,
            h as int == n as int * sh,
            sh >= 1,
            processed@.len() == n,
            forall|j: int|
                0 <= j < n ==> {
                    &&& (#[trigger] processed@[j]).wf()
                    &&& processed@[j].width == w
                    &&& processed@[j].channels == 1
                    &&& processed@[j].height == stripe_height(j, sh, n as int)
                    &&& processed@[j].data@ == process_spec(
                        stripe_data(d, w as nat, 3, j, sh, n as int),
                        w as nat,
                        stripe_height(j, sh, n as int) as nat,
                    )
                },
            i <= n,
            trimmed@.len() == i,
            forall|j: int|
                0 <= j < i ==> {
                    &&& (#[trigger] trimmed@[j]).wf()
                    &&& trimmed@[j].width == w - 2
                    &&& trimmed@[j].channels == 1
                    &&& trimmed@[j].height == stripe_height(j, sh, n as int) - 2
                    &&& trimmed@[j].data@ == stripe_out(d, w as nat, sh, n as int, j)
                },
        decreases n - i,
    {
        proof {
            lemma_stripe_layout(h as nat, sh, n as int, i as int);
        }
        let t = trim(&processed[i]);
        trimmed.push(t);
        i = i + 1;
    }
    proof {
        lemma_trimmed_run(trimmed@, d, w as nat, h as nat, sh, n as int, n as int);
        lemma_stripe_layout(h as nat, sh, n as int, n as int - 1);
    }
    let out = match stitch(&trimmed) {
        Ok(g) => g,
        Err(_) => {
            // The summed trimmed height is h - 2, which fits.
            proof {
                assert(false);
            }
            return Err(PipelineError::BadShape);
        },
    };
    proof {
        lemma_tiling_equivalence(d, w as nat, h as nat, n as int);
    }
    Ok(out)
}

} // verus!
