//! Integer geometry for movie rendering: padding a frame to dimensions the
//! video encoder accepts (multiples of 16), with black borders.

use crate::crop::mul_le;
use vstd::prelude::*;

verus! {

/// The extent rounded up to the next multiple of 16.
pub open spec fn pad16(e: int) -> int {
    e + (16 - e % 16) % 16
}

/// The padded output dimensions for a frame.
pub fn pad_dimensions(w: u64, h: u64) -> (r: (u64, u64))
    requires
        w + 15 <= u64::MAX,
        h + 15 <= u64::MAX,
    ensures
        r.0 == pad16(w as int),
        r.1 == pad16(h as int),
        r.0 % 16 == 0,
        r.1 % 16 == 0,
        w <= r.0 < w + 16,
        h <= r.1 < h + 16,
{
    let pad_w = (16 - (w % 16)) % 16;
    let pad_h = (16 - (h % 16)) % 16;
    (w + pad_w, h + pad_h)
}

/// Copies an RGB frame into the top-left corner of a larger black frame.
/// Pixels are triples, row-major.
pub fn pad_rgb_frame(rgb: &[u8], w: usize, h: usize, out_w: usize, out_h: usize) -> (out: Vec<u8>)
    requires
        w <= out_w,
        h <= out_h,
        rgb@.len() == w * h * 3,
        out_w * out_h * 3 <= usize::MAX,
    ensures
        out@.len() == out_w * out_h * 3,
        forall|y: int, x: int, ch: int|
            0 <= y < h && 0 <= x < w && 0 <= ch < 3 ==> #[trigger] out@[(y * out_w + x) * 3 + ch]
                == rgb@[(y * w + x) * 3 + ch],
        forall|y: int, x: int, ch: int|
            0 <= y < out_h && 0 <= x < out_w && 0 <= ch < 3 && (x >= w || y >= h)
                ==> #[trigger] out@[(y * out_w + x) * 3 + ch] == 0,
{
    let mut out: Vec<u8> = Vec::new();
    let mut y: usize = 0;
    while y < out_h
        invariant
            y <= out_h,
            w <= out_w,
            h <= out_h,
            rgb@.len() == w * h * 3,
            out_w * out_h * 3 <= usize::MAX,
            out@.len() == y * out_w * 3,
            forall|yi: int, x: int, ch: int|
                0 <= yi < y && 0 <= x < w && yi < h && 0 <= ch < 3 ==> #[trigger] out@[(yi * out_w
                    + x) * 3 + ch] == rgb@[(yi * w + x) * 3 + ch],
            forall|yi: int, x: int, ch: int|
                0 <= yi < y && 0 <= x < out_w && 0 <= ch < 3 && (x >= w || yi >= h)
                    ==> #[trigger] out@[(yi * out_w + x) * 3 + ch] == 0,
        decreases out_h - y,
    {
        let mut x: usize = 0;
        proof {
            mul_le((y + 1) as int, out_h as int, (out_w * 3) as int);
            assert((y + 1) * (out_w * 3) == y * out_w * 3 + out_w * 3) by (nonlinear_arith);
            assert(out_h as int * (out_w as int * 3) == out_w * out_h * 3) by (nonlinear_arith);
        }
        while x < out_w
            invariant
                x <= out_w,
                y < out_h,
                w <= out_w,
                h <= out_h,
                rgb@.len() == w * h * 3,
                out_w * out_h * 3 <= usize::MAX,
                y * out_w * 3 + out_w * 3 <= out_w * out_h * 3,
                out@.len() == y * out_w * 3 + x * 3,
                forall|yi: int, xi: int, ch: int|
                    0 <= yi < y && 0 <= xi < w && yi < h && 0 <= ch < 3 ==> #[trigger] out@[(yi
                        * out_w + xi) * 3 + ch] == rgb@[(yi * w + xi) * 3 + ch],
                forall|yi: int, xi: int, ch: int|
                    0 <= yi < y && 0 <= xi < out_w && 0 <= ch < 3 && (xi >= w || yi >= h)
                        ==> #[trigger] out@[(yi * out_w + xi) * 3 + ch] == 0,
                forall|xi: int, ch: int|
                    0 <= xi < x && 0 <= ch < 3 && xi < w && y < h ==> #[trigger] out@[(y * out_w
                        + xi) * 3 + ch] == rgb@[(y * w + xi) * 3 + ch],
                forall|xi: int, ch: int|
                    0 <= xi < x && 0 <= ch < 3 && (xi >= w || y >= h) ==> #[trigger] out@[(y
                        * out_w + xi) * 3 + ch] == 0,
            decreases out_w - x,
        {
            proof {
                assert((y * out_w + x) * 3 == y * out_w * 3 + x * 3) by (nonlinear_arith);
                assert(x + 1 <= out_w);
                assert(y * out_w * 3 + (x + 1) * 3 <= y * out_w * 3 + out_w * 3)
                    by (nonlinear_arith)
                    requires
                        x + 1 <= out_w,
                ;
                assert((x + 1) * 3 == x * 3 + 3) by (nonlinear_arith);
            }
            if x < w && y < h {
                proof {
                    assert((y * w + x) * 3 + 3 <= w * h * 3) by (nonlinear_arith)
                        requires
                            0 <= x < w,
                            0 <= y < h,
                    ;
                    assert((y * w + x) * 3 + 2 == y * w * 3 + x * 3 + 2) by (nonlinear_arith);
                    assert(rgb.len() == rgb@.len());
                }
                let src: usize = (y * w + x) * 3;
                out.push(rgb[src]);
                out.push(rgb[src + 1]);
                out.push(rgb[src + 2]);
            } else {
                out.push(0);
                out.push(0);
                out.push(0);
            }
            proof {
                assert forall|yi: int, xi: int, ch: int|
                    0 <= yi < y && 0 <= xi < out_w && 0 <= ch < 3 implies #[trigger] ((yi * out_w
                    + xi) * 3 + ch) < y * out_w * 3 by {
                    mul_le((yi + 1) as int, y as int, (out_w * 3) as int);
                    assert((yi * out_w + xi) * 3 + ch < (yi + 1) * (out_w * 3))
                        by (nonlinear_arith)
                        requires
                            0 <= xi < out_w,
                            0 <= ch < 3,
                            0 <= yi,
                    ;
                    assert((yi + 1) * (out_w * 3) == (yi + 1) * out_w * 3) by (nonlinear_arith);
                    assert((y as int) * (out_w * 3) == y * out_w * 3) by (nonlinear_arith);
                }
                assert forall|xi: int, ch: int|
                    0 <= xi < x && 0 <= ch < 3 implies #[trigger] ((y * out_w + xi) * 3 + ch) < y
                    * out_w * 3 + x * 3 by {
                    assert((y * out_w + xi) * 3 + ch == y * out_w * 3 + xi * 3 + ch)
                        by (nonlinear_arith);
                    assert(xi * 3 + ch < x * 3) by (nonlinear_arith)
                        requires
                            0 <= xi < x,
                            0 <= ch < 3,
                    ;
                }
            }
            x = x + 1;
        }
        y = y + 1;
        proof {
            assert((y - 1) * out_w * 3 + out_w * 3 == y * out_w * 3) by (nonlinear_arith);
        }
    }
    proof {
        assert(out_h as int * (out_w as int) * 3 == out_w * out_h * 3) by (nonlinear_arith);
    }
    out
}

} // verus!
