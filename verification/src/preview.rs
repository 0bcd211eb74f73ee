//! Preview thumbnails: decoding the base64 PNG that a job carries, turning
//! its pixels into 8-bit RGB, nearest-neighbour resizing and re-encoding as
//! PNG.

use vstd::prelude::*;
use vstd::arithmetic::div_mod::{lemma_div_is_ordered, lemma_fundamental_div_mod_converse};
use vstd::arithmetic::div_mod::{lemma_fundamental_div_mod, lemma_mod_bound};
use vstd::arithmetic::mul::lemma_mul_inequality;
use crate::codecs::{
    base64_decode_standard, base64_standard_decoding, png_decode_frame, png_decoding, png_encode_rgb8,
    png_rgb8_encoding, png_rgb8_size_fits, PngColour, PngDecodeFailure, PngEncodeFailure, PngFrame, PngStage,
};
use crate::text::{
    law_data_url_header_is_dropped, law_plain_payload_is_trimmed, payload_of, preview_payload,
};

verus! {

/// The source row (or column) that nearest-neighbour scaling samples for
/// destination row (or column) `d`.
pub open spec fn nearest(d: int, src_len: int, dst_len: int) -> int {
    d * src_len / dst_len
}

/// Byte `i` of the resized image: channel `i % 3` of the source pixel that
/// destination pixel `i / 3` samples.
pub open spec fn resized_byte(src_w: u32, src_h: u32, src: Seq<u8>, dst_w: u32, dst_h: u32, i: int) -> u8 {
    let p = i / 3;
    let y = p / (dst_w as int);
    let x = p % (dst_w as int);
    src[(nearest(y, src_h as int, dst_h as int) * src_w + nearest(x, src_w as int, dst_w as int)) * 3 + i % 3]
}

/// The nearest-neighbour resize of the row-major RGB8 image `src`, of
/// `src_w`×`src_h` pixels, to `dst_w`×`dst_h` pixels; an image asked for at
/// its own size comes back unchanged.
pub open spec fn resized_rgb(src_w: u32, src_h: u32, src: Seq<u8>, dst_w: u32, dst_h: u32) -> Seq<u8> {
    if src_w == dst_w && src_h == dst_h {
        src
    } else {
        Seq::new((dst_w * dst_h * 3) as nat, |i: int| resized_byte(src_w, src_h, src, dst_w, dst_h, i))
    }
}

/// Whether a resize of `src` can be done: at the same size always; else the
/// output fits in memory and every pixel that is sampled lies in `src`.
pub open spec fn resize_fits(src_w: u32, src_h: u32, src_len: nat, dst_w: u32, dst_h: u32) -> bool {
    ||| src_w == dst_w && src_h == dst_h
    ||| {
        &&& dst_w * dst_h * 3 <= usize::MAX
        &&& (dst_w > 0 && dst_h > 0 ==> (nearest(dst_h - 1, src_h as int, dst_h as int) * src_w + nearest(
            dst_w - 1,
            src_w as int,
            dst_w as int,
        )) * 3 + 3 <= src_len)
    }
}

proof fn lemma_nearest_bounds(d: int, src_len: int, dst_len: int)
    requires
        0 <= d < dst_len,
        0 <= src_len,
    ensures
        0 <= nearest(d, src_len, dst_len) <= nearest(dst_len - 1, src_len, dst_len),
        nearest(d, src_len, dst_len) <= src_len,
{
    lemma_mul_inequality(d, dst_len - 1, src_len);
    lemma_div_is_ordered(d * src_len, (dst_len - 1) * src_len, dst_len);
    assert(0 <= d * src_len) by (nonlinear_arith)
        requires
            0 <= d,
            0 <= src_len,
    ;
    assert(0 <= d * src_len / dst_len) by (nonlinear_arith)
        requires
            0 <= d * src_len,
            0 < dst_len,
    ;
    assert(d * src_len / dst_len <= src_len) by (nonlinear_arith)
        requires
            0 <= d < dst_len,
            0 <= src_len,
    ;
}

proof fn lemma_pixel_position(y: int, x: int, c: int, w: int)
    requires
        0 <= y,
        0 <= x < w,
        0 <= c < 3,
    ensures
        ((y * w + x) * 3 + c) / 3 == y * w + x,
        ((y * w + x) * 3 + c) % 3 == c,
        (y * w + x) / w == y,
        (y * w + x) % w == x,
{
    lemma_fundamental_div_mod_converse((y * w + x) * 3 + c, 3, y * w + x, c);
    lemma_fundamental_div_mod_converse(y * w + x, w, y, x);
}

/// Nearest-neighbour resize of a row-major RGB8 buffer.
pub fn resize_rgb_nearest(src_w: u32, src_h: u32, src: &[u8], dst_w: u32, dst_h: u32) -> (out: Vec<u8>)
    requires
        resize_fits(src_w, src_h, src@.len(), dst_w, dst_h),
    ensures
        out@ == resized_rgb(src_w, src_h, src@, dst_w, dst_h),
{
    if src_w == dst_w && src_h == dst_h {
        return vstd::slice::slice_to_vec(src);
    }
    let src_len: usize = src.len();
    let mut out: Vec<u8> = Vec::new();
    let mut y: u32 = 0;
    while y < dst_h
        invariant
            resize_fits(src_w, src_h, src@.len(), dst_w, dst_h),
            !(src_w == dst_w && src_h == dst_h),
            src_len == src@.len(),
            y <= dst_h,
            out@.len() == y as int * dst_w * 3,
            forall|i: int| 0 <= i < out@.len() ==> out@[i] == resized_byte(src_w, src_h, src@, dst_w, dst_h, i),
        decreases dst_h - y,
    {
        assert((y as u64) * (src_h as u64) <= u64::MAX) by (nonlinear_arith)
            requires
                y <= u32::MAX,
                src_h <= u32::MAX,
        ;
        let sy64: u64 = (y as u64) * (src_h as u64) / (dst_h as u64);
        proof {
            lemma_nearest_bounds(y as int, src_h as int, dst_h as int);
        }
        let sy: usize = sy64 as usize;
        let mut x: u32 = 0;
        while x < dst_w
            invariant
                resize_fits(src_w, src_h, src@.len(), dst_w, dst_h),
                !(src_w == dst_w && src_h == dst_h),
                src_len == src@.len(),
                y < dst_h,
                x <= dst_w,
                sy == nearest(y as int, src_h as int, dst_h as int),
                0 <= sy <= nearest(dst_h - 1, src_h as int, dst_h as int),
                out@.len() == (y as int * dst_w + x) * 3,
                forall|i: int| 0 <= i < out@.len() ==> out@[i] == resized_byte(src_w, src_h, src@, dst_w, dst_h, i),
            decreases dst_w - x,
        {
            assert((x as u64) * (src_w as u64) <= u64::MAX) by (nonlinear_arith)
                requires
                    x <= u32::MAX,
                    src_w <= u32::MAX,
            ;
            let sx64: u64 = (x as u64) * (src_w as u64) / (dst_w as u64);
            proof {
                lemma_nearest_bounds(x as int, src_w as int, dst_w as int);
                let sy_max = nearest(dst_h - 1, src_h as int, dst_h as int);
                let sx_max = nearest(dst_w - 1, src_w as int, dst_w as int);
                lemma_mul_inequality(sy as int, sy_max, src_w as int);
                assert((sy * src_w + sx64) * 3 + 3 <= (sy_max * src_w + sx_max) * 3 + 3);
            }
            let sx: usize = sx64 as usize;
            let si: usize = (sy * (src_w as usize) + sx) * 3;
            let ghost before = out@;
            out.push(src[si]);
            out.push(src[si + 1]);
            out.push(src[si + 2]);
            proof {
                assert forall|i: int| 0 <= i < out@.len() implies out@[i] == resized_byte(
                    src_w,
                    src_h,
                    src@,
                    dst_w,
                    dst_h,
                    i,
                ) by {
                    if i >= before.len() {
                        let c = i - before.len();
                        lemma_pixel_position(y as int, x as int, c, dst_w as int);
                        assert(i == (y as int * dst_w + x) * 3 + c);
                    }
                }
            }
            x = x + 1;
            assert(out@.len() == (y as int * dst_w + x) * 3);
        }
        y = y + 1;
        assert(out@.len() == y as int * dst_w * 3) by (nonlinear_arith)
            requires
                out@.len() == ((y - 1) as int * dst_w + dst_w) * 3,
        ;
    }
    assert(out@ =~= resized_rgb(src_w, src_h, src@, dst_w, dst_h)) by {
        assert(out@.len() == (dst_w * dst_h * 3) as nat) by (nonlinear_arith)
            requires
                out@.len() == dst_h as int * dst_w * 3,
        ;
    }
    out
}

/// `q * d / d == q`.
proof fn lemma_div_exact(q: int, d: int)
    requires
        d > 0,
    ensures
        (q * d) / d == q,
{
    lemma_fundamental_div_mod_converse(q * d, d, q, 0);
}

/// Below `d * q`, the quotient by `d` stays below `q`.
proof fn lemma_quotient_below(x: int, d: int, q: int)
    requires
        d > 0,
        0 <= x < d * q,
    ensures
        0 <= x / d < q,
{
    lemma_fundamental_div_mod(x, d);
    lemma_mod_bound(x, d);
    if x / d >= q {
        lemma_mul_inequality(q, x / d, d);
        assert(d * (x / d) >= d * q) by (nonlinear_arith)
            requires
                q * d <= (x / d) * d,
        ;
    }
    if x / d < 0 {
        assert(d * (x / d) <= -d) by (nonlinear_arith)
            requires
                x / d <= -1,
                d > 0,
        ;
    }
}

/// Scaling a coordinate up by a whole factor `f` and sampling it back gives
/// the coordinate again; scaling down samples exactly the `f`-th coordinates.
proof fn lemma_nearest_whole_factor(a: int, n: int, f: int)
    requires
        n > 0,
        f >= 1,
    ensures
        nearest(a, n * f, n) == a * f,
        nearest(a * f, n, f * n) == a,
{
    assert(a * (n * f) == (a * f) * n) by (nonlinear_arith);
    lemma_div_exact(a * f, n);
    assert((a * f) * n == a * (f * n)) by (nonlinear_arith);
    assert(f * n > 0) by (nonlinear_arith)
        requires
            n > 0,
            f >= 1,
    ;
    lemma_div_exact(a, f * n);
}

/// Law: scaling an image up by whole factors and back down gives the image
/// again, for images whose upscaled pixels fit in memory.
pub proof fn law_upscale_then_downscale_restores(w: u32, h: u32, k: u32, m: u32, src: Seq<u8>)
    requires
        w > 0,
        h > 0,
        k >= 1,
        m >= 1,
        k * w <= u32::MAX,
        m * h <= u32::MAX,
        src.len() == w * h * 3,
        (k * w) * (m * h) * 3 <= usize::MAX,
    ensures
        resize_fits(w, h, src.len(), (k * w) as u32, (m * h) as u32),
        resize_fits(
            (k * w) as u32,
            (m * h) as u32,
            resized_rgb(w, h, src, (k * w) as u32, (m * h) as u32).len(),
            w,
            h,
        ),
        resized_rgb((k * w) as u32, (m * h) as u32, resized_rgb(w, h, src, (k * w) as u32, (m * h) as u32), w, h)
            == src,
{
    let kw = (k * w) as u32;
    let mh = (m * h) as u32;
    if k == 1 && m == 1 {
        assert(kw == w && mh == h);
    } else {
        assert(kw != w || mh != h) by (nonlinear_arith)
            requires
                kw == k * w,
                mh == m * h,
                w > 0,
                h > 0,
                k >= 1,
                m >= 1,
                k != 1 || m != 1,
        ;
        let up = resized_rgb(w, h, src, kw, mh);
        assert(up.len() == kw * mh * 3);
        // The upscale reads inside `src`.
        assert(kw >= 1 && mh >= 1) by (nonlinear_arith)
            requires
                kw == k * w,
                mh == m * h,
                k >= 1,
                m >= 1,
                w > 0,
                h > 0,
        ;
        lemma_nearest_bounds(mh - 1, h as int, mh as int);
        lemma_nearest_bounds(kw - 1, w as int, kw as int);
        assert(0 <= (mh - 1) * h < mh * h) by (nonlinear_arith)
            requires
                mh >= 1,
                h >= 1,
        ;
        assert(0 <= (kw - 1) * w < kw * w) by (nonlinear_arith)
            requires
                kw >= 1,
                w >= 1,
        ;
        lemma_quotient_below((mh - 1) * h, mh as int, h as int);
        lemma_quotient_below((kw - 1) * w, kw as int, w as int);
        let sy = nearest(mh - 1, h as int, mh as int);
        let sx = nearest(kw - 1, w as int, kw as int);
        assert((sy * w + sx) * 3 + 3 <= w * h * 3) by (nonlinear_arith)
            requires
                0 <= sy <= h - 1,
                0 <= sx <= w - 1,
                w > 0,
        ;
        // The downscale reads inside `up`.
        lemma_nearest_whole_factor(h - 1, h as int, m as int);
        lemma_nearest_whole_factor(w - 1, w as int, k as int);
        assert(w * h * 3 <= kw * mh * 3) by (nonlinear_arith)
            requires
                kw == k * w,
                mh == m * h,
                k >= 1,
                m >= 1,
                w > 0,
                h > 0,
        ;
        assert((((h - 1) * m) * kw + (w - 1) * k) * 3 + 3 <= kw * mh * 3) by (nonlinear_arith)
            requires
                kw == k * w,
                mh == m * h,
                k >= 1,
                m >= 1,
                w > 0,
                h > 0,
        ;
        assert(nearest((h - 1) as int, mh as int, h as int) == (h - 1) * m) by {
            assert(mh as int == h * m) by (nonlinear_arith)
                requires
                    mh == m * h,
            ;
        }
        assert(nearest((w - 1) as int, kw as int, w as int) == (w - 1) * k) by {
            assert(kw as int == w * k) by (nonlinear_arith)
                requires
                    kw == k * w,
            ;
        }
        let down = resized_rgb(kw, mh, up, w, h);
        assert(down.len() == src.len());
        assert forall|i: int| 0 <= i < src.len() implies down[i] == src[i] by {
            let p = i / 3;
            let c = i % 3;
            let y = p / (w as int);
            let x = p % (w as int);
            lemma_fundamental_div_mod(i, 3);
            lemma_mod_bound(i, 3);
            lemma_fundamental_div_mod(p, w as int);
            lemma_mod_bound(p, w as int);
            lemma_quotient_below(i, 3, (w * h) as int);
            lemma_quotient_below(p, w as int, h as int);
            assert(i == (y * w + x) * 3 + c) by (nonlinear_arith)
                requires
                    i == 3 * p + c,
                    p == w * y + x,
            ;
            lemma_nearest_whole_factor(y, h as int, m as int);
            lemma_nearest_whole_factor(x, w as int, k as int);
            assert(mh as int == h * m && kw as int == w * k) by (nonlinear_arith)
                requires
                    mh == m * h,
                    kw == k * w,
            ;
            let yy = y * m;
            let xx = x * k;
            assert(0 <= yy < mh && 0 <= xx < kw) by (nonlinear_arith)
                requires
                    yy == y * m,
                    xx == x * k,
                    0 <= y < h,
                    0 <= x < w,
                    mh == m * h,
                    kw == k * w,
                    m >= 1,
                    k >= 1,
            ;
            let j = (yy * kw + xx) * 3 + c;
            assert(j < up.len()) by (nonlinear_arith)
                requires
                    0 <= yy < mh,
                    0 <= xx < kw,
                    0 <= c < 3,
                    j == (yy * kw + xx) * 3 + c,
                    up.len() == kw * mh * 3,
            ;
            assert(0 <= yy * kw) by (nonlinear_arith)
                requires
                    0 <= yy,
                    0 <= kw,
            ;
            lemma_pixel_position(yy, xx, c, kw as int);
            lemma_nearest_whole_factor(y, h as int, m as int);
            assert(nearest(yy, h as int, mh as int) == y) by {
                assert(m * h == mh);
            }
            assert(nearest(xx, w as int, kw as int) == x) by {
                assert(k * w == kw);
            }
            assert(down[i] == up[j]);
        }
        assert(down =~= src);
    }
}

/// Why a preview thumbnail could not be made.
#[derive(Debug, Clone, Copy, PartialEq, Eq, Structural)]
pub enum PreviewError {
    /// The preview payload is not valid base64.
    InvalidBase64,
    /// The PNG header could not be decoded.
    PngDecodeHeader,
    /// The PNG image data could not be decoded.
    PngDecodeFrame,
    /// The PNG decodes to a colour type that previews do not take.
    UnsupportedColourType,
    /// The PNG header could not be encoded.
    PngEncodeHeader,
    /// The PNG image data could not be encoded.
    PngEncodeData,
}

/// The 8-bit RGB pixels of decoded samples: RGB as they are, RGBA without
/// alpha, grey repeated into all three channels, grey-alpha likewise without
/// alpha; indexed colour is not taken. Trailing samples that do not make a
/// whole pixel are dropped.
pub open spec fn rgb8_pixels(colour: PngColour, samples: Seq<u8>) -> Option<Seq<u8>> {
    match colour {
        PngColour::Rgb => Some(samples),
        PngColour::Rgba => Some(Seq::new((samples.len() / 4 * 3) as nat, |i: int| samples[(i / 3) * 4 + i % 3])),
        PngColour::Grayscale => Some(Seq::new(samples.len() * 3, |i: int| samples[i / 3])),
        PngColour::GrayscaleAlpha => Some(Seq::new((samples.len() / 2 * 3) as nat, |i: int| samples[(i / 3) * 2])),
        PngColour::Indexed => None,
    }
}

proof fn lemma_triple_position(p: int, c: int)
    requires
        0 <= p,
        0 <= c < 3,
    ensures
        (p * 3 + c) / 3 == p,
        (p * 3 + c) % 3 == c,
{
    lemma_fundamental_div_mod_converse(p * 3 + c, 3, p, c);
}

/// Turns the samples of a decoded frame into 8-bit RGB pixels, as
/// `rgb8_pixels` says; indexed colour is refused.
pub fn rgb8_from_samples(colour: PngColour, samples: &[u8]) -> (r: Result<Vec<u8>, PreviewError>)
    ensures
        match rgb8_pixels(colour, samples@) {
            Some(px) => r matches Ok(v) && v@ == px,
            None => r == Err::<Vec<u8>, PreviewError>(PreviewError::UnsupportedColourType),
        },
{
    let n: usize = samples.len();
    let stride: usize = match colour {
        PngColour::Rgb => {
            return Ok(vstd::slice::slice_to_vec(samples));
        },
        PngColour::Rgba => 4,
        PngColour::Grayscale => 1,
        PngColour::GrayscaleAlpha => 2,
        PngColour::Indexed => {
            return Err(PreviewError::UnsupportedColourType);
        },
    };
    let ghost px = rgb8_pixels(colour, samples@)->Some_0;
    let pixels: usize = n / stride;
    let mut out: Vec<u8> = Vec::new();
    let mut p: usize = 0;
    while p < pixels
        invariant
            n == samples@.len(),
            stride == 1 || stride == 2 || stride == 4,
            stride == 4 <==> colour == PngColour::Rgba,
            stride == 1 <==> colour == PngColour::Grayscale,
            stride == 2 <==> colour == PngColour::GrayscaleAlpha,
            px == rgb8_pixels(colour, samples@)->Some_0,
            px.len() == pixels * 3,
            pixels == n / stride,
            p <= pixels,
            out@.len() == p * 3,
            forall|i: int| 0 <= i < out@.len() ==> out@[i] == px[i],
        decreases pixels - p,
    {
        let base: usize = p * stride;
        assert(base + stride <= n) by (nonlinear_arith)
            requires
                base == p * stride,
                p < pixels,
                pixels == n / stride,
                stride > 0,
        ;
        let ghost before = out@;
        if stride == 4 {
            out.push(samples[base]);
            out.push(samples[base + 1]);
            out.push(samples[base + 2]);
        } else {
            out.push(samples[base]);
            out.push(samples[base]);
            out.push(samples[base]);
        }
        proof {
            assert forall|i: int| 0 <= i < out@.len() implies out@[i] == px[i] by {
                if i >= before.len() {
                    lemma_triple_position(p as int, i - p * 3);
                    assert(i == p * 3 + (i - p * 3));
                }
            }
        }
        p = p + 1;
    }
    assert(out@ =~= px);
    Ok(out)
}

/// Law: what each colour type turns into. RGB samples are kept as they are.
/// From RGBA samples every whole group of four gives one pixel, its first
/// three samples; from grey samples every sample gives one pixel of three
/// equal bytes; from grey-alpha samples every whole pair gives one such pixel
/// of its first sample. Indexed samples give nothing.
pub proof fn law_rgb8_pixels_per_colour_type(samples: Seq<u8>)
    ensures
        rgb8_pixels(PngColour::Rgb, samples) == Some(samples),
        rgb8_pixels(PngColour::Indexed, samples) is None,
        rgb8_pixels(PngColour::Rgba, samples) matches Some(px) && px.len() == (samples.len() / 4) * 3
            && forall|p: int, c: int|
            0 <= p < samples.len() / 4 && 0 <= c < 3 ==> #[trigger] px[3 * p + c] == samples[4 * p + c],
        rgb8_pixels(PngColour::Grayscale, samples) matches Some(px) && px.len() == samples.len() * 3
            && forall|p: int, c: int|
            0 <= p < samples.len() && 0 <= c < 3 ==> #[trigger] px[3 * p + c] == samples[p],
        rgb8_pixels(PngColour::GrayscaleAlpha, samples) matches Some(px) && px.len() == (samples.len() / 2) * 3
            && forall|p: int, c: int|
            0 <= p < samples.len() / 2 && 0 <= c < 3 ==> #[trigger] px[3 * p + c] == samples[2 * p],
{
    let n = samples.len();
    let rgba = rgb8_pixels(PngColour::Rgba, samples)->Some_0;
    assert forall|p: int, c: int| 0 <= p < n / 4 && 0 <= c < 3 implies #[trigger] rgba[3 * p + c] == samples[4
        * p + c] by {
        lemma_triple_position(p, c);
        assert(3 * p + c == p * 3 + c);
    }
    let grey = rgb8_pixels(PngColour::Grayscale, samples)->Some_0;
    assert forall|p: int, c: int| 0 <= p < n && 0 <= c < 3 implies #[trigger] grey[3 * p + c] == samples[p] by {
        lemma_triple_position(p, c);
        assert(3 * p + c == p * 3 + c);
    }
    let grey_alpha = rgb8_pixels(PngColour::GrayscaleAlpha, samples)->Some_0;
    assert forall|p: int, c: int| 0 <= p < n / 2 && 0 <= c < 3 implies #[trigger] grey_alpha[3 * p + c]
        == samples[2 * p] by {
        lemma_triple_position(p, c);
        assert(3 * p + c == p * 3 + c);
    }
}

/// Decodes a preview string, either plain base64 or a
/// `data:image/png;base64,...` URL, into the bytes it carries.
pub fn decode_base64(input: &str) -> (r: Result<Vec<u8>, PreviewError>)
    ensures
        match base64_standard_decoding(preview_payload(input@)) {
            Some(bytes) => r matches Ok(v) && v@ == bytes,
            None => r == Err::<Vec<u8>, PreviewError>(PreviewError::InvalidBase64),
        },
{
    let payload = payload_of(input);
    match base64_decode_standard(payload) {
        Ok(v) => Ok(v),
        Err(_) => Err(PreviewError::InvalidBase64),
    }
}

/// The image that PNG bytes hold, as its width, its height and its 8-bit RGB
/// pixels, or why there is none.
pub open spec fn png_rgb8_image(png_bytes: Seq<u8>) -> Result<(u32, u32, Seq<u8>), PreviewError> {
    match png_decoding(png_bytes) {
        Err(PngStage::Header) => Err(PreviewError::PngDecodeHeader),
        Err(PngStage::ImageData) => Err(PreviewError::PngDecodeFrame),
        Ok((w, h, colour, samples)) => match rgb8_pixels(colour, samples) {
            Some(px) => Ok((w, h, px)),
            None => Err(PreviewError::UnsupportedColourType),
        },
    }
}

/// Decodes PNG bytes into width, height and 8-bit RGB pixels.
pub fn decode_png_rgb8(png_bytes: &[u8]) -> (r: Result<(u32, u32, Vec<u8>), PreviewError>)
    ensures
        match png_rgb8_image(png_bytes@) {
            Ok((w, h, px)) => r matches Ok((rw, rh, v)) && rw == w && rh == h && v@ == px,
            Err(e) => r matches Err(re) && re == e,
        },
{
    match png_decode_frame(png_bytes) {
        Ok(frame) => {
            let PngFrame { width, height, colour, samples } = frame;
            match rgb8_from_samples(colour, samples.as_slice()) {
                Ok(rgb) => Ok((width, height, rgb)),
                Err(e) => Err(e),
            }
        },
        Err(PngDecodeFailure::Header(_)) => Err(PreviewError::PngDecodeHeader),
        Err(PngDecodeFailure::Frame(_)) => Err(PreviewError::PngDecodeFrame),
    }
}

/// Encodes 8-bit RGB pixels as a PNG file. The image's row and data lengths
/// must fit in a `usize`.
pub fn encode_png_rgb8(width: u32, height: u32, rgb: &[u8]) -> (r: Result<Vec<u8>, PreviewError>)
    requires
        png_rgb8_size_fits(width, height),
    ensures
        match png_rgb8_encoding(width, height, rgb@) {
            Ok(bytes) => r matches Ok(v) && v@ == bytes,
            Err(PngStage::Header) => r == Err::<Vec<u8>, PreviewError>(PreviewError::PngEncodeHeader),
            Err(PngStage::ImageData) => r == Err::<Vec<u8>, PreviewError>(PreviewError::PngEncodeData),
        },
{
    match png_encode_rgb8(width, height, rgb) {
        Ok(v) => Ok(v),
        Err(PngEncodeFailure::Header(_)) => Err(PreviewError::PngEncodeHeader),
        Err(PngEncodeFailure::Data(_)) => Err(PreviewError::PngEncodeData),
    }
}

/// Whether an 8-bit RGB image of `width`×`height` pixels can be handed to
/// `encode_png_rgb8`, as `png_rgb8_size_fits` says.
pub fn can_encode_png(width: u32, height: u32) -> (b: bool)
    ensures
        b == png_rgb8_size_fits(width, height),
{
    let w: u128 = width as u128;
    let h: u128 = height as u128;
    assert(w * h * 3 <= 0xffff_ffff_ffff_ffff_ffff_ffff_ffff_ffffu128) by (nonlinear_arith)
        requires
            w <= u32::MAX,
            h <= u32::MAX,
    ;
    w * 3 + 1 <= usize::MAX as u128 && w * h * 3 <= usize::MAX as u128
}

/// Whether a resize of `src_len` bytes of `src_w`×`src_h` pixels to
/// `dst_w`×`dst_h` can be done, as `resize_fits` says.
pub fn can_resize(src_w: u32, src_h: u32, src_len: usize, dst_w: u32, dst_h: u32) -> (b: bool)
    ensures
        b == resize_fits(src_w, src_h, src_len as nat, dst_w, dst_h),
{
    if src_w == dst_w && src_h == dst_h {
        return true;
    }
    let w: u128 = dst_w as u128;
    let h: u128 = dst_h as u128;
    assert(w * h * 3 <= 0xffff_ffff_ffff_ffff_ffff_ffff_ffff_ffffu128) by (nonlinear_arith)
        requires
            w <= u32::MAX,
            h <= u32::MAX,
    ;
    if w * h * 3 > usize::MAX as u128 {
        return false;
    }
    if dst_w == 0 || dst_h == 0 {
        return true;
    }
    assert((dst_h - 1) as u64 * (src_h as u64) <= u64::MAX) by (nonlinear_arith)
        requires
            1 <= dst_h <= u32::MAX,
            src_h <= u32::MAX,
    ;
    assert((dst_w - 1) as u64 * (src_w as u64) <= u64::MAX) by (nonlinear_arith)
        requires
            1 <= dst_w <= u32::MAX,
            src_w <= u32::MAX,
    ;
    let sy_max: u64 = ((dst_h - 1) as u64) * (src_h as u64) / (dst_h as u64);
    let sx_max: u64 = ((dst_w - 1) as u64) * (src_w as u64) / (dst_w as u64);
    proof {
        lemma_nearest_bounds((dst_h - 1) as int, src_h as int, dst_h as int);
        lemma_nearest_bounds((dst_w - 1) as int, src_w as int, dst_w as int);
    }
    assert(((sy_max as u128) * (src_w as u128) + sx_max as u128) * 3 + 3 <= 0xffff_ffff_ffff_ffff_ffff_ffff_ffff_ffffu128) by (nonlinear_arith)
        requires
            sy_max <= u32::MAX,
            sx_max <= u32::MAX,
            src_w <= u32::MAX,
    ;
    let last: u128 = ((sy_max as u128) * (src_w as u128) + sx_max as u128) * 3 + 3;
    last <= src_len as u128
}

/// The PNG thumbnail of `tw`×`th` pixels made from a base64 preview string:
/// the string decoded, its PNG decoded into RGB pixels, resized and encoded
/// again; `None` where there is no string, it is empty, or any step fails,
/// or the target size is too large to resize or encode in memory.
pub open spec fn preview_png(source: Option<Seq<char>>, tw: u32, th: u32) -> Option<Seq<u8>> {
    match source {
        None => None,
        Some(s) => if s.len() == 0 {
            None
        } else {
            match base64_standard_decoding(preview_payload(s)) {
                None => None,
                Some(png_bytes) => match png_rgb8_image(png_bytes) {
                    Err(_) => None,
                    Ok((w, h, px)) => if !resize_fits(w, h, px.len(), tw, th) || !png_rgb8_size_fits(tw, th) {
                        None
                    } else {
                        match png_rgb8_encoding(tw, th, resized_rgb(w, h, px, tw, th)) {
                            Ok(out) => Some(out),
                            Err(_) => None,
                        }
                    },
                },
            }
        },
    }
}

/// Law: any whole image of at least one pixel can be resized to any target
/// size whose pixels fit in memory, larger or smaller than the image.
pub proof fn law_whole_images_resize(src_w: u32, src_h: u32, src_len: nat, dst_w: u32, dst_h: u32)
    requires
        src_w > 0,
        src_h > 0,
        src_len >= src_w * src_h * 3,
        dst_w * dst_h * 3 <= usize::MAX,
    ensures
        resize_fits(src_w, src_h, src_len, dst_w, dst_h),
{
    if dst_w > 0 && dst_h > 0 {
        assert(0 <= (dst_h - 1) * src_h < dst_h * src_h) by (nonlinear_arith)
            requires
                dst_h >= 1,
                src_h >= 1,
        ;
        assert(0 <= (dst_w - 1) * src_w < dst_w * src_w) by (nonlinear_arith)
            requires
                dst_w >= 1,
                src_w >= 1,
        ;
        lemma_quotient_below((dst_h - 1) * src_h, dst_h as int, src_h as int);
        lemma_quotient_below((dst_w - 1) * src_w, dst_w as int, src_w as int);
        let sy = nearest(dst_h - 1, src_h as int, dst_h as int);
        let sx = nearest(dst_w - 1, src_w as int, dst_w as int);
        assert((sy * src_w + sx) * 3 + 3 <= src_w * src_h * 3) by (nonlinear_arith)
            requires
                0 <= sy <= src_h - 1,
                0 <= sx <= src_w - 1,
                src_w > 0,
        ;
    }
}

/// Law: a preview string that decodes to a whole PNG image of at least one
/// pixel gives that image resized to the target and encoded as PNG, for every
/// target whose rows and pixels fit in memory, whether larger or smaller than
/// the image; it is `None` only where the encoder refuses.
pub proof fn law_preview_of_a_whole_image(
    source: Seq<char>,
    tw: u32,
    th: u32,
    png_bytes: Seq<u8>,
    w: u32,
    h: u32,
    px: Seq<u8>,
)
    requires
        source.len() > 0,
        base64_standard_decoding(preview_payload(source)) == Some(png_bytes),
        png_rgb8_image(png_bytes) == Ok::<(u32, u32, Seq<u8>), PreviewError>((w, h, px)),
        w > 0,
        h > 0,
        px.len() == w * h * 3,
        tw * 3 + 1 <= usize::MAX,
        tw * th * 3 <= usize::MAX,
    ensures
        preview_png(Some(source), tw, th) == match png_rgb8_encoding(tw, th, resized_rgb(w, h, px, tw, th)) {
            Ok(out) => Some(out),
            Err(_) => None::<Seq<u8>>,
        },
{
    law_whole_images_resize(w, h, px.len(), tw, th);
}

/// Law: a data URL and its bare, non-empty base64 payload give the same
/// thumbnail.
pub proof fn law_data_url_and_bare_payload_give_same_preview(
    header: Seq<char>,
    payload: Seq<char>,
    tw: u32,
    th: u32,
)
    requires
        !header.contains(','),
        !payload.contains(','),
        payload.len() > 0,
    ensures
        preview_png(Some(header + seq![','] + payload), tw, th) == preview_png(Some(payload), tw, th),
{
    law_data_url_header_is_dropped(header, payload);
    law_plain_payload_is_trimmed(payload);
    assert((header + seq![','] + payload).len() > 0);
}

/// Builds a PNG thumbnail at the given target size from a base64-encoded
/// source. Returns `None` if the source is missing or empty, or if it cannot
/// be decoded, resized or re-encoded (a target too large for memory
/// included).
pub fn build_preview_png(base64_source: Option<&str>, target_w: u32, target_h: u32) -> (r: Option<Vec<u8>>)
    ensures
        match preview_png(
            match base64_source {
                Some(s) => Some(s@),
                None => None,
            },
            target_w,
            target_h,
        ) {
            Some(bytes) => r matches Some(v) && v@ == bytes,
            None => r is None,
        },
{
    let src = match base64_source {
        Some(s) => s,
        None => {
            return None;
        },
    };
    if src.is_empty() {
        return None;
    }
    let png_bytes = match decode_base64(src) {
        Ok(b) => b,
        Err(_) => {
            return None;
        },
    };
    let (sw, sh, rgb) = match decode_png_rgb8(png_bytes.as_slice()) {
        Ok(image) => image,
        Err(_) => {
            return None;
        },
    };
    if !can_resize(sw, sh, rgb.len(), target_w, target_h) || !can_encode_png(target_w, target_h) {
        return None;
    }
    let resized = resize_rgb_nearest(sw, sh, rgb.as_slice(), target_w, target_h);
    match encode_png_rgb8(target_w, target_h, resized.as_slice()) {
        Ok(out) => Some(out),
        Err(_) => None,
    }
}

} // verus!
