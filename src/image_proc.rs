//! Thermal image preprocessing on a single-channel 8-bit raster: auto-levels,
//! adaptive contrast, tone lookup, sharpening and Floyd–Steinberg dithering.
use vstd::prelude::*;

verus! {

/// A grayscale raster, row-major, one byte per pixel.
#[derive(Debug, Clone, PartialEq, Eq)]
pub struct GrayImage {
    pub width: u32,
    pub height: u32,
    pub pixels: Vec<u8>,
}

impl GrayImage {
    /// The pixel buffer holds exactly `width * height` pixels.
    pub open spec fn wf(&self) -> bool {
        self.pixels@.len() == self.width as int * self.height as int
    }

    /// A raster with every pixel at `value`.
    pub fn from_pixel(width: u32, height: u32, value: u8) -> (r: GrayImage)
        requires
            width as int * height as int <= usize::MAX,
        ensures
            r.wf(),
            r.width == width,
            r.height == height,
            forall|i: int| 0 <= i < r.pixels@.len() ==> r.pixels@[i] == value,
    {
        let n = (width as usize) * (height as usize);
        let mut pixels: Vec<u8> = Vec::new();
        let mut i: usize = 0;
        while i < n
            invariant
                i <= n,
                pixels@.len() == i,
                forall|k: int| 0 <= k < i ==> pixels@[k] == value,
            decreases n - i,
        {
            pixels.push(value);
            i = i + 1;
        }
        GrayImage { width, height, pixels }
    }
}

/// Sum of the pixel values.
pub open spec fn pixel_sum(s: Seq<u8>) -> int
    decreases s.len(),
{
    if s.len() == 0 {
        0
    } else {
        pixel_sum(s.drop_last()) + s.last() as int
    }
}

proof fn lemma_pixel_sum_bound(s: Seq<u8>)
    ensures
        0 <= pixel_sum(s) <= 255 * s.len(),
    decreases s.len(),
{
    if s.len() > 0 {
        lemma_pixel_sum_bound(s.drop_last());
    }
}

/// The mean brightness: the integer mean of the pixels, 128 for an empty raster.
pub open spec fn mean_spec(s: Seq<u8>) -> int {
    if s.len() == 0 {
        128
    } else {
        pixel_sum(s) / (s.len() as int)
    }
}

/// Average pixel brightness (0–255).
pub fn mean_brightness(img: &GrayImage) -> (r: u8)
    ensures
        r as int == mean_spec(img.pixels@),
{
    let s = &img.pixels;
    let n = s.len();
    if n == 0 {
        return 128;
    }
    let mut total: u128 = 0;
    let mut i: usize = 0;
    while i < n
        invariant
            n == s@.len(),
            i <= n,
            total as int == pixel_sum(s@.subrange(0, i as int)),
        decreases n - i,
    {
        proof {
            lemma_pixel_sum_bound(s@.subrange(0, i as int));
            assert(s@.subrange(0, i + 1).drop_last() =~= s@.subrange(0, i as int));
            assert(255 * i <= 255 * 0xffff_ffff_ffff_ffffu128) by (nonlinear_arith)
                requires
                    i <= 0xffff_ffff_ffff_ffffu128,
            ;
        }
        total = total + s[i] as u128;
        i = i + 1;
    }
    assert(s@.subrange(0, n as int) =~= s@);
    proof {
        lemma_pixel_sum_bound(s@);
        assert(pixel_sum(s@) / (n as int) <= 255) by (nonlinear_arith)
            requires
                0 <= pixel_sum(s@) <= 255 * n,
                n > 0,
        ;
    }
    (total / (n as u128)) as u8
}

/// Every pixel `v` replaced by `lut[v]`.
pub open spec fn lut_seq(s: Seq<u8>, lut: Seq<u8>) -> Seq<u8> {
    s.map_values(|v: u8| lut[v as int])
}

/// Replaces every pixel `v` by `lut[v]`.
pub fn apply_lut(img: &mut GrayImage, lut: &[u8; 256])
    ensures
        final(img).width == old(img).width,
        final(img).height == old(img).height,
        final(img).pixels@.len() == old(img).pixels@.len(),
        final(img).pixels@ == lut_seq(old(img).pixels@, lut@),
{
    let n = img.pixels.len();
    let mut i: usize = 0;
    while i < n
        invariant
            n == old(img).pixels@.len(),
            img.pixels@.len() == n,
            img.width == old(img).width,
            img.height == old(img).height,
            i <= n,
            forall|k: int| 0 <= k < i ==> #[trigger] img.pixels@[k] == lut@[old(img).pixels@[k] as int],
            forall|k: int| i <= k < n ==> #[trigger] img.pixels@[k] == old(img).pixels@[k],
        decreases n - i,
    {
        let v = img.pixels[i];
        img.pixels.set(i, lut[v as usize]);
        i = i + 1;
    }
    assert(img.pixels@ =~= lut_seq(old(img).pixels@, lut@));
}

/// Contrast around mid-gray: `clamp(round((v - 128) * factor + 128))`, with the
/// factor in hundredths and halves rounded away from zero.
pub open spec fn contrast_value(v: int, factor_pct: int) -> int {
    let t = (v - 128) * factor_pct + 12800;
    if t <= 0 {
        0
    } else if (2 * t + 100) / 200 > 255 {
        255
    } else {
        (2 * t + 100) / 200
    }
}

pub open spec fn contrast_seq(s: Seq<u8>, factor_pct: int) -> Seq<u8> {
    s.map_values(|v: u8| contrast_value(v as int, factor_pct) as u8)
}

/// Applies contrast adjustment, `factor_pct / 100` > 1 increases contrast.
pub fn apply_contrast(img: &mut GrayImage, factor_pct: u32)
    ensures
        final(img).width == old(img).width,
        final(img).height == old(img).height,
        final(img).pixels@.len() == old(img).pixels@.len(),
        final(img).pixels@ == contrast_seq(old(img).pixels@, factor_pct as int),
{
    let mut lut: [u8; 256] = [0u8; 256];
    let mut v: usize = 0;
    while v < 256
        invariant
            v <= 256,
            forall|k: int| 0 <= k < v ==> #[trigger] lut@[k] as int == contrast_value(k, factor_pct as int),
        decreases 256 - v,
    {
        let d: i64 = v as i64 - 128;
        let f: i64 = factor_pct as i64;
        assert(-128 * 0x1_0000_0000 <= d * f <= 128 * 0x1_0000_0000) by (nonlinear_arith)
            requires
                -128 <= d <= 127,
                0 <= f < 0x1_0000_0000,
        ;
        let t: i64 = d * f + 12800;
        let out: u8 = if t <= 0 {
            0
        } else if (2 * t + 100) / 200 > 255 {
            255
        } else {
            ((2 * t + 100) / 200) as u8
        };
        lut[v] = out;
        v = v + 1;
    }
    apply_lut(img, &lut);
    assert(img.pixels@ =~= contrast_seq(old(img).pixels@, factor_pct as int));
}


// ---------------------------------------------------------------------------
// Floyd–Steinberg error diffusion
pub open spec fn clamp_byte(v: int) -> int {
    if v < 0 {
        0
    } else if v > 255 {
        255
    } else {
        v
    }
}

/// Division by 16 that truncates toward zero.
pub open spec fn tdiv16(a: int) -> int {
    if a >= 0 {
        a / 16
    } else {
        -((-a) / 16)
    }
}

/// Adds `d` to cell `i`, if there is such a cell.
pub open spec fn add_at(b: Seq<int>, i: int, d: int) -> Seq<int> {
    if 0 <= i < b.len() {
        b.update(i, b[i] + d)
    } else {
        b
    }
}

/// One diffusion step at `idx` of a raster `w` wide holding `n` cells: the
/// cell is set to 0 or 255 and its error goes 7/16 right, 3/16 below-left,
/// 5/16 below and 1/16 below-right.
pub open spec fn fs_step(buf: Seq<int>, w: int, n: int, idx: int) -> Seq<int> {
    let x = idx % w;
    let old = clamp_byte(buf[idx]);
    let new = if old > 127 {
        255int
    } else {
        0int
    };
    let err = old - new;
    let b1 = buf.update(idx, new);
    let b2 = if x + 1 < w {
        add_at(b1, idx + 1, tdiv16(err * 7))
    } else {
        b1
    };
    let b3 = if idx + w < n && x > 0 {
        add_at(b2, idx + w - 1, tdiv16(err * 3))
    } else {
        b2
    };
    let b4 = if idx + w < n {
        add_at(b3, idx + w, tdiv16(err * 5))
    } else {
        b3
    };
    if idx + w < n && x + 1 < w {
        add_at(b4, idx + w + 1, tdiv16(err))
    } else {
        b4
    }
}

/// The working buffer after the first `k` cells have been processed.
pub open spec fn fs_buffer(init: Seq<int>, w: int, k: int) -> Seq<int>
    decreases k,
{
    if k <= 0 {
        init
    } else {
        fs_step(fs_buffer(init, w, k - 1), w, init.len() as int, k - 1)
    }
}

pub open spec fn widen(px: Seq<u8>) -> Seq<int> {
    px.map_values(|v: u8| v as int)
}

/// The dithered raster: every cell after all cells have been processed.
pub open spec fn dithered(px: Seq<u8>, w: int) -> Seq<int> {
    fs_buffer(widen(px), w, px.len() as int)
}

/// How far the error already diffused into cell `j` can have moved it.
pub open spec fn fs_bound(j: int, k: int, w: int) -> int {
    (if j - 1 < k {
        55int
    } else {
        0int
    }) + (if j - w + 1 < k {
        23int
    } else {
        0int
    }) + (if j - w < k {
        39int
    } else {
        0int
    }) + (if j - w - 1 < k {
        7int
    } else {
        0int
    })
}

pub open spec fn fs_inv(buf: Seq<int>, init: Seq<int>, w: int, k: int) -> bool {
    &&& buf.len() == init.len()
    &&& forall|j: int| 0 <= j < k && j < buf.len() ==> #[trigger] buf[j] == 0 || buf[j] == 255
    &&& forall|j: int|
        k <= j < buf.len() ==> init[j] - fs_bound(j, k, w) <= #[trigger] buf[j] <= init[j]
            + fs_bound(j, k, w)
}

proof fn lemma_fs_step(buf: Seq<int>, init: Seq<int>, w: int, k: int)
    requires
        w > 0,
        0 <= k < buf.len(),
        fs_inv(buf, init, w, k),
    ensures
        fs_inv(fs_step(buf, w, init.len() as int, k), init, w, k + 1),
{
    let n = init.len() as int;
    let x = k % w;
    assert(0 <= x < w) by (nonlinear_arith)
        requires
            w > 0,
            x == k % w,
    ;
    let old = clamp_byte(buf[k]);
    let new = if old > 127 {
        255int
    } else {
        0int
    };
    let err = old - new;
    let d7 = tdiv16(err * 7);
    let d3 = tdiv16(err * 3);
    let d5 = tdiv16(err * 5);
    let d1 = tdiv16(err);
    assert(-127 <= err <= 127);
    assert(-55 <= d7 <= 55);
    assert(-23 <= d3 <= 23);
    assert(-39 <= d5 <= 39);
    assert(-7 <= d1 <= 7);
    let c2 = x + 1 < w;
    let c3 = k + w < n && x > 0;
    let c4 = k + w < n;
    let c5 = k + w < n && x + 1 < w;
    let b1 = buf.update(k, new);
    let b2 = if c2 {
        add_at(b1, k + 1, d7)
    } else {
        b1
    };
    let b3 = if c3 {
        add_at(b2, k + w - 1, d3)
    } else {
        b2
    };
    let b4 = if c4 {
        add_at(b3, k + w, d5)
    } else {
        b3
    };
    let r = if c5 {
        add_at(b4, k + w + 1, d1)
    } else {
        b4
    };
    assert(r == fs_step(buf, w, n, k));
    assert(r.len() == buf.len());
    assert forall|j: int| 0 <= j < r.len() implies #[trigger] r[j] == (if j == k {
        new
    } else {
        buf[j]
    }) + (if c2 && j == k + 1 {
        d7
    } else {
        0
    }) + (if c3 && j == k + w - 1 {
        d3
    } else {
        0
    }) + (if c4 && j == k + w {
        d5
    } else {
        0
    }) + (if c5 && j == k + w + 1 {
        d1
    } else {
        0
    }) by {
        assert(b1[j] == if j == k {
            new
        } else {
            buf[j]
        });
    }
    assert forall|j: int| k + 1 <= j < r.len() implies init[j] - fs_bound(j, k + 1, w)
        <= #[trigger] r[j] <= init[j] + fs_bound(j, k + 1, w) by {
        assert(init[j] - fs_bound(j, k, w) <= buf[j] <= init[j] + fs_bound(j, k, w));
    }
    assert forall|j: int| 0 <= j < k + 1 && j < r.len() implies #[trigger] r[j] == 0 || r[j]
        == 255 by {
        if j < k {
            assert(buf[j] == 0 || buf[j] == 255);
        }
    }
}

proof fn lemma_fs_buffer(init: Seq<int>, w: int, k: int)
    requires
        w > 0,
        0 <= k <= init.len(),
        forall|j: int| 0 <= j < init.len() ==> 0 <= #[trigger] init[j] <= 255,
    ensures
        fs_inv(fs_buffer(init, w, k), init, w, k),
    decreases k,
{
    if k == 0 {
    } else {
        lemma_fs_buffer(init, w, k - 1);
        lemma_fs_step(fs_buffer(init, w, k - 1), init, w, k - 1);
    }
}

proof fn lemma_fs_uniform(init: Seq<int>, w: int, k: int, c: int)
    requires
        w > 0,
        0 <= k <= init.len(),
        c == 0 || c == 255,
        forall|j: int| 0 <= j < init.len() ==> #[trigger] init[j] == c,
    ensures
        fs_buffer(init, w, k).len() == init.len(),
        forall|j: int| 0 <= j < init.len() ==> #[trigger] fs_buffer(init, w, k)[j] == c,
    decreases k,
{
    if k > 0 {
        lemma_fs_uniform(init, w, k - 1, c);
        let b = fs_buffer(init, w, k - 1);
        let r = fs_step(b, w, init.len() as int, k - 1);
        assert(r == fs_buffer(init, w, k));
        assert(tdiv16(0) == 0);
        assert(b[k - 1] == c);
        let b1 = b.update(k - 1, c);
        assert(b1 =~= b);
        assert(r =~= b);
    }
}

/// A uniformly white or uniformly black raster dithers to itself.
pub proof fn lemma_dither_uniform(px: Seq<u8>, w: int, c: u8)
    requires
        w > 0,
        c == 0 || c == 255,
        forall|j: int| 0 <= j < px.len() ==> #[trigger] px[j] == c,
    ensures
        forall|j: int| 0 <= j < px.len() ==> #[trigger] dithered(px, w)[j] == c as int,
{
    let init = widen(px);
    assert forall|j: int| 0 <= j < init.len() implies #[trigger] init[j] == c as int by {
        assert(init[j] == px[j] as int);
    }
    lemma_fs_uniform(init, w, px.len() as int, c as int);
}

fn tdiv16_exec(a: i32) -> (r: i32)
    requires
        -4096 <= a <= 4096,
    ensures
        r as int == tdiv16(a as int),
{
    if a >= 0 {
        a / 16
    } else {
        -((-a) / 16)
    }
}

pub open spec fn dither_seq(px: Seq<u8>, w: int) -> Seq<u8> {
    Seq::new(px.len(), |j: int| dithered(px, w)[j] as u8)
}

/// Floyd–Steinberg error-diffusion dithering: turns the raster into pure 0/255
/// in place, diffusing each cell's error through a signed working buffer.
pub fn floyd_steinberg_dither(img: &mut GrayImage)
    requires
        old(img).wf(),
    ensures
        final(img).width == old(img).width,
        final(img).height == old(img).height,
        final(img).pixels@.len() == old(img).pixels@.len(),
        final(img).pixels@ == dither_seq(old(img).pixels@, old(img).width as int),
        forall|j: int|
            0 <= j < old(img).pixels@.len() ==> #[trigger] final(img).pixels@[j] == 0
                || final(img).pixels@[j] == 255,
{
    let n = img.pixels.len();
    if n == 0 {
        return ;
    }
    let w = img.width as usize;
    let ghost h = img.height as int;
    let ghost init = widen(img.pixels@);
    proof {
        assert(n as int == w as int * h);
        if w == 0 {
            assert(w as int * h == 0) by (nonlinear_arith)
                requires
                    w == 0,
            ;
        }
        assert(h > 0 && w <= n) by (nonlinear_arith)
            requires
                n as int == w as int * h,
                n > 0,
                w > 0,
                h >= 0,
        ;
    }
    let mut buf: Vec<i32> = Vec::new();
    let mut i: usize = 0;
    while i < n
        invariant
            i <= n,
            n == img.pixels@.len(),
            init == widen(img.pixels@),
            buf@.len() == i,
            forall|j: int| 0 <= j < i ==> #[trigger] buf@[j] as int == init[j],
        decreases n - i,
    {
        buf.push(img.pixels[i] as i32);
        i = i + 1;
    }
    assert forall|j: int| 0 <= j < init.len() implies 0 <= #[trigger] init[j] <= 255 by {
        assert(init[j] == img.pixels@[j] as int);
    }
    let mut idx: usize = 0;
    let mut x: usize = 0;
    let ghost mut y: int = 0;
    assert(buf@.map_values(|v: i32| v as int) =~= fs_buffer(init, w as int, 0));
    while idx < n
        invariant
            w > 0,
            n == init.len(),
            n as int == w as int * h,
            idx <= n,
            x < w,
            0 <= y,
            idx as int == y * w as int + x as int,
            idx < n ==> y < h,
            buf@.len() == n,
            buf@.map_values(|v: i32| v as int) == fs_buffer(init, w as int, idx as int),
            forall|j: int| 0 <= j < init.len() ==> 0 <= #[trigger] init[j] <= 255,
        decreases n - idx,
    {
        let ghost cur = buf@.map_values(|v: i32| v as int);
        proof {
            lemma_fs_buffer(init, w as int, idx as int);
            assert forall|j: int| 0 <= j < n implies -124 <= #[trigger] buf@[j] <= 379 by {
                assert(cur[j] == buf@[j] as int);
                if j >= idx {
                    assert(0 <= init[j] <= 255);
                }
            }
            assert(cur.len() == n);
            assert(x as int == (idx as int) % (w as int)) by {
                vstd::arithmetic::div_mod::lemma_fundamental_div_mod_converse(
                    idx as int,
                    w as int,
                    y,
                    x as int,
                );
            }
        }
        assert(cur[idx as int] == buf@[idx as int] as int);
        let v = buf[idx];
        assert(-1000 <= v <= 1000);
        let old_v: i32 = if v < 0 {
            0
        } else if v > 255 {
            255
        } else {
            v
        };
        let new_v: i32 = if old_v > 127 {
            255
        } else {
            0
        };
        let err = old_v - new_v;
        buf.set(idx, new_v);
        let row_next = w < n - idx;
        assert(row_next == (idx + w < n));
        proof {
            assert(idx + 1 < n || x + 1 >= w) by (nonlinear_arith)
                requires
                    idx as int == y * w as int + x as int,
                    n as int == w as int * h,
                    y < h,
                    0 <= y,
            ;
        }
        if x + 1 < w {
            let t = buf[idx + 1];
            assert(-1000 <= t <= 1000);
            buf.set(idx + 1, t + tdiv16_exec(err * 7));
        }
        if row_next && x > 0 {
            let t = buf[idx + w - 1];
            assert(-1000 <= t <= 1000);
            buf.set(idx + w - 1, t + tdiv16_exec(err * 3));
        }
        if row_next {
            let t = buf[idx + w];
            assert(-1000 <= t <= 1000);
            buf.set(idx + w, t + tdiv16_exec(err * 5));
        }
        if row_next && x + 1 < w {
            proof {
                assert(idx + w + 1 < n) by (nonlinear_arith)
                    requires
                        idx as int == y * w as int + x as int,
                        n as int == w as int * h,
                        idx + w < n,
                        x + 1 < w,
                        0 <= y,
                ;
            }
            let t = buf[idx + w + 1];
            assert(-1000 <= t <= 1000);
            buf.set(idx + w + 1, t + tdiv16_exec(err));
        }
        assert(buf@.map_values(|v: i32| v as int) =~= fs_step(cur, w as int, n as int, idx as int));
        idx = idx + 1;
        if x + 1 < w {
            x = x + 1;
        } else {
            proof {
                assert((y + 1) * w as int == y * w as int + w as int) by (nonlinear_arith);
                y = y + 1;
            }
            x = 0;
        }
        proof {
            if idx < n {
                assert(y < h) by (nonlinear_arith)
                    requires
                        idx as int == y * w as int + x as int,
                        n as int == w as int * h,
                        idx < n,
                        0 <= x,
                        0 <= y,
                        w > 0,
                ;
            }
        }
    }
    proof {
        lemma_fs_buffer(init, w as int, n as int);
    }
    let mut k: usize = 0;
    while k < n
        invariant
            k <= n,
            n == init.len(),
            img.pixels@.len() == n,
            img.width == old(img).width,
            img.height == old(img).height,
            init == widen(old(img).pixels@),
            buf@.len() == n,
            buf@.map_values(|v: i32| v as int) == fs_buffer(init, w as int, n as int),
            fs_inv(fs_buffer(init, w as int, n as int), init, w as int, n as int),
            forall|j: int| 0 <= j < k ==> #[trigger] img.pixels@[j] as int == fs_buffer(init, w as int, n as int)[j],
        decreases n - k,
    {
        let b = buf[k];
        assert(b as int == fs_buffer(init, w as int, n as int)[k as int]);
        let out: u8 = if b <= 0 {
            0
        } else {
            255
        };
        img.pixels.set(k, out);
        k = k + 1;
    }
    assert forall|j: int| 0 <= j < n implies #[trigger] img.pixels@[j] == dither_seq(old(img).pixels@, old(img).width as int)[j] by {
        assert(fs_buffer(init, w as int, n as int)[j] == 0 || fs_buffer(init, w as int, n as int)[j] == 255);
    }
    assert(img.pixels@ =~= dither_seq(old(img).pixels@, old(img).width as int));
}


// ---------------------------------------------------------------------------
// Auto-levels
/// How many pixels have value `v`.
pub open spec fn count_eq(s: Seq<u8>, v: int) -> int
    decreases s.len(),
{
    if s.len() == 0 {
        0
    } else {
        count_eq(s.drop_last(), v) + if s.last() as int == v {
            1int
        } else {
            0int
        }
    }
}

/// How many pixels have a value of at most `v`.
pub open spec fn count_le(s: Seq<u8>, v: int) -> int
    decreases v + 1,
{
    if v < 0 {
        0
    } else {
        count_le(s, v - 1) + count_eq(s, v)
    }
}

/// The least level from `v` on that at least `cutoff` pixels reach, 255 at the latest.
pub open spec fn level_from(s: Seq<u8>, cutoff: int, v: int) -> int
    decreases 255 - v,
{
    if v >= 255 {
        255
    } else if count_le(s, v) >= cutoff {
        v
    } else {
        level_from(s, cutoff, v + 1)
    }
}

/// The 2nd percentile brightness.
pub open spec fn low_level(s: Seq<u8>) -> int {
    level_from(s, (s.len() * 2 / 100) as int, 0)
}

/// The 98th percentile brightness.
pub open spec fn high_level(s: Seq<u8>) -> int {
    level_from(s, (s.len() * 98 / 100) as int, 0)
}

/// `[lo, hi]` stretched linearly onto `[0, 255]`, rounded, clamped outside.
pub open spec fn levels_value(v: int, lo: int, hi: int) -> int {
    if v <= lo {
        0
    } else if v >= hi {
        255
    } else {
        (2 * (v - lo) * 255 + (hi - lo)) / (2 * (hi - lo))
    }
}

/// The raster after auto-levels; a flat histogram leaves it unchanged.
pub open spec fn levels_seq(s: Seq<u8>) -> Seq<u8> {
    let lo = low_level(s);
    let hi = high_level(s);
    if hi <= lo {
        s
    } else {
        s.map_values(|v: u8| levels_value(v as int, lo, hi) as u8)
    }
}

proof fn lemma_count_eq_bound(s: Seq<u8>, v: int)
    ensures
        0 <= count_eq(s, v) <= s.len(),
    decreases s.len(),
{
    if s.len() > 0 {
        lemma_count_eq_bound(s.drop_last(), v);
    }
}

/// The histogram of the raster, one count per value.
fn histogram(s: &Vec<u8>) -> (r: Vec<u128>)
    ensures
        r@.len() == 256,
        forall|v: int| 0 <= v < 256 ==> #[trigger] r@[v] as int == count_eq(s@, v),
{
    let mut hist: Vec<u128> = Vec::new();
    let mut v: usize = 0;
    while v < 256
        invariant
            v <= 256,
            hist@.len() == v,
            forall|u: int| 0 <= u < v ==> #[trigger] hist@[u] == 0,
        decreases 256 - v,
    {
        hist.push(0);
        v = v + 1;
    }
    let mut k: usize = 0;
    assert(s@.subrange(0, 0) =~= Seq::<u8>::empty());
    while k < s.len()
        invariant
            k <= s@.len(),
            hist@.len() == 256,
            forall|u: int| 0 <= u < 256 ==> #[trigger] hist@[u] as int == count_eq(s@.subrange(0, k as int), u),
        decreases s.len() - k,
    {
        let p = s[k] as usize;
        proof {
            lemma_count_eq_bound(s@.subrange(0, k as int), p as int);
        }
        assert(s@.subrange(0, k + 1).drop_last() =~= s@.subrange(0, k as int));
        assert(s@.subrange(0, k + 1).last() == s@[k as int]);
        let c = hist[p];
        hist.set(p, c + 1);
        k = k + 1;
    }
    assert(s@.subrange(0, s@.len() as int) =~= s@);
    hist
}

/// The least level reaching `cutoff` pixels, from the histogram.
fn find_level(hist: &Vec<u128>, cutoff: u128, s: Ghost<Seq<u8>>) -> (r: u8)
    requires
        hist@.len() == 256,
        forall|v: int| 0 <= v < 256 ==> #[trigger] hist@[v] as int == count_eq(s@, v),
        forall|v: int| 0 <= v < 256 ==> 0 <= #[trigger] count_eq(s@, v) <= s@.len(),
        s@.len() <= usize::MAX,
    ensures
        r as int == level_from(s@, cutoff as int, 0),
{
    let mut cum: u128 = 0;
    let mut i: usize = 0;
    while i < 255
        invariant
            i <= 255,
            hist@.len() == 256,
            forall|v: int| 0 <= v < 256 ==> #[trigger] hist@[v] as int == count_eq(s@, v),
            forall|v: int| 0 <= v < 256 ==> 0 <= #[trigger] count_eq(s@, v) <= s@.len(),
            s@.len() <= usize::MAX,
            cum as int == count_le(s@, i - 1),
            cum as int <= i * s@.len(),
            level_from(s@, cutoff as int, i as int) == level_from(s@, cutoff as int, 0),
        decreases 255 - i,
    {
        assert(i * s@.len() + s@.len() <= 256 * 0xffff_ffff_ffff_ffffu128) by (nonlinear_arith)
            requires
                i <= 255,
                s@.len() <= 0xffff_ffff_ffff_ffffu128,
        ;
        assert((i + 1) * s@.len() == i * s@.len() + s@.len()) by (nonlinear_arith);
        cum = cum + hist[i];
        if cum >= cutoff {
            return i as u8;
        }
        i = i + 1;
    }
    255
}

/// Stretches the histogram so that the 2nd–98th percentile maps to 0–255.
pub fn auto_levels(img: &mut GrayImage)
    ensures
        final(img).width == old(img).width,
        final(img).height == old(img).height,
        final(img).pixels@ == levels_seq(old(img).pixels@),
{
    let ghost s = img.pixels@;
    let hist = histogram(&img.pixels);
    let total = img.pixels.len() as u128;
    proof {
        assert forall|v: int| 0 <= v < 256 implies 0 <= #[trigger] count_eq(s, v) <= s.len() by {
            lemma_count_eq_bound(s, v);
        }
    }
    let low = find_level(&hist, total * 2 / 100, Ghost(s));
    let high = find_level(&hist, total * 98 / 100, Ghost(s));
    if high <= low {
        return ;
    }
    let range = (high - low) as u32;
    let mut lut: [u8; 256] = [0u8; 256];
    let mut v: usize = 0;
    while v < 256
        invariant
            v <= 256,
            low < high,
            range == high - low,
            forall|k: int| 0 <= k < v ==> #[trigger] lut@[k] as int == levels_value(k, low as int, high as int),
        decreases 256 - v,
    {
        let out: u8 = if v <= low as usize {
            0
        } else if v >= high as usize {
            255
        } else {
            let d = (v - low as usize) as u32;
            assert((2 * d * 255 + range) / (2 * range) <= 255) by (nonlinear_arith)
                requires
                    d < range,
                    range > 0,
            ;
            ((2 * d * 255 + range) / (2 * range)) as u8
        };
        lut[v] = out;
        v = v + 1;
    }
    apply_lut(img, &lut);
    assert(img.pixels@ =~= levels_seq(s));
}

// ---------------------------------------------------------------------------
// Sharpening
/// The 3×3 neighbourhood sum around cell `i` of a raster `w` wide.
pub open spec fn box_sum(s: Seq<u8>, w: int, i: int) -> int {
    s[i - w - 1] + s[i - w] + s[i - w + 1] + s[i - 1] + s[i] + s[i + 1] + s[i + w - 1] + s[i + w]
        + s[i + w + 1]
}

/// `clamp(round(orig + (orig - blurred) / 2))`, halves rounded away from zero.
pub open spec fn sharpen_value(orig: int, blurred: int) -> int {
    let t = 3 * orig - blurred;
    if t <= 0 {
        0
    } else if (t + 1) / 2 > 255 {
        255
    } else {
        (t + 1) / 2
    }
}

/// A cell with all eight neighbours inside the raster.
pub open spec fn is_interior(i: int, w: int, n: int) -> bool {
    let x = i % w;
    x >= 1 && x + 1 < w && i >= w && i + w < n
}

/// The raster after a half-strength 3×3 unsharp mask; border cells are kept.
pub open spec fn unsharp_seq(s: Seq<u8>, w: int) -> Seq<u8> {
    Seq::new(
        s.len(),
        |i: int|
            if is_interior(i, w, s.len() as int) {
                sharpen_value(s[i] as int, box_sum(s, w, i) / 9) as u8
            } else {
                s[i]
            },
    )
}

/// A 3×3 unsharp mask at half strength, to keep edges that dithering would smear.
pub fn unsharp_mask(img: &mut GrayImage)
    requires
        old(img).wf(),
    ensures
        final(img).width == old(img).width,
        final(img).height == old(img).height,
        final(img).pixels@ == unsharp_seq(old(img).pixels@, old(img).width as int),
{
    let n = img.pixels.len();
    let w = img.width as usize;
    let ghost h = img.height as int;
    let ghost src = img.pixels@;
    if w == 0 || n == 0 {
        proof {
            if w == 0 {
                assert(w as int * h == 0) by (nonlinear_arith)
                    requires
                        w == 0,
                ;
            }
        }
        assert(img.pixels@ =~= unsharp_seq(src, w as int));
        return ;
    }
    proof {
        assert(h > 0) by (nonlinear_arith)
            requires
                n as int == w as int * h,
                n > 0,
                w > 0,
                h >= 0,
        ;
    }
    let mut out: Vec<u8> = Vec::new();
    let mut i: usize = 0;
    let mut x: usize = 0;
    let ghost mut y: int = 0;
    while i < n
        invariant
            w > 0,
            n == src.len(),
            img.pixels@ == src,
            n as int == w as int * h,
            i <= n,
            x < w,
            0 <= y,
            i as int == y * w as int + x as int,
            i < n ==> y < h,
            out@.len() == i,
            forall|k: int| 0 <= k < i ==> #[trigger] out@[k] == unsharp_seq(src, w as int)[k],
        decreases n - i,
    {
        proof {
            vstd::arithmetic::div_mod::lemma_fundamental_div_mod_converse(
                i as int,
                w as int,
                y,
                x as int,
            );
        }
        let interior = x >= 1 && x + 1 < w && i >= w && w < n - i;
        let orig = img.pixels[i];
        if interior {
            proof {
                assert(i >= w + 1 && i + w + 1 < n) by (nonlinear_arith)
                    requires
                        i as int == y * w as int + x as int,
                        n as int == w as int * h,
                        i >= w,
                        i + w < n,
                        x >= 1,
                        x + 1 < w,
                        0 <= y,
                        y < h,
                ;
            }
            let p = &img.pixels;
            let sum: u32 = p[i - w - 1] as u32 + p[i - w] as u32 + p[i - w + 1] as u32 + p[i - 1] as u32
                + p[i] as u32 + p[i + 1] as u32 + p[i + w - 1] as u32 + p[i + w] as u32 + p[i + w
                + 1] as u32;
            let blurred = sum / 9;
            let t: i32 = 3 * (orig as i32) - blurred as i32;
            let v: u8 = if t <= 0 {
                0
            } else if (t + 1) / 2 > 255 {
                255
            } else {
                ((t + 1) / 2) as u8
            };
            out.push(v);
        } else {
            out.push(orig);
        }
        i = i + 1;
        if x + 1 < w {
            x = x + 1;
        } else {
            proof {
                assert((y + 1) * w as int == y * w as int + w as int) by (nonlinear_arith);
                y = y + 1;
            }
            x = 0;
        }
        proof {
            if i < n {
                assert(y < h) by (nonlinear_arith)
                    requires
                        i as int == y * w as int + x as int,
                        n as int == w as int * h,
                        i < n,
                        0 <= x,
                        0 <= y,
                        w > 0,
                ;
            }
        }
    }
    img.pixels = out;
    assert(img.pixels@ =~= unsharp_seq(src, w as int));
}

// ---------------------------------------------------------------------------
// The adaptive pipeline
/// Contrast (in hundredths) and gamma (in hundredths) for one brightness band.
#[derive(Debug, Clone, Copy, PartialEq, Eq, Structural)]
pub struct ToneCurve {
    pub contrast_pct: u32,
    pub gamma_pct: u32,
}

/// Dark images get gentle contrast and a strong midtone lift, bright ones the reverse.
pub open spec fn tone_for(mean: int) -> ToneCurve {
    if mean < 90 {
        ToneCurve { contrast_pct: 110, gamma_pct: 150 }
    } else if mean < 130 {
        ToneCurve { contrast_pct: 125, gamma_pct: 130 }
    } else {
        ToneCurve { contrast_pct: 140, gamma_pct: 115 }
    }
}

/// Picks contrast and gamma by mean brightness band.
pub fn select_tone(mean: u8) -> (r: ToneCurve)
    ensures
        r == tone_for(mean as int),
{
    if mean < 90 {
        ToneCurve { contrast_pct: 110, gamma_pct: 150 }
    } else if mean < 130 {
        ToneCurve { contrast_pct: 125, gamma_pct: 130 }
    } else {
        ToneCurve { contrast_pct: 140, gamma_pct: 115 }
    }
}

/// Gamma lookup tables for the three brightness bands (gamma 1.5, 1.3 and 1.15).
pub struct GammaTables {
    pub dark: [u8; 256],
    pub medium: [u8; 256],
    pub bright: [u8; 256],
}

/// The table for a tone curve's gamma: 1.5 dark, 1.3 medium, otherwise bright.
pub open spec fn gamma_table_for(t: GammaTables, gamma_pct: u32) -> Seq<u8> {
    if gamma_pct == 150 {
        t.dark@
    } else if gamma_pct == 130 {
        t.medium@
    } else {
        t.bright@
    }
}

/// A gamma curve that lifts: black and white stay fixed, no value goes down,
/// and the curve never decreases.
pub open spec fn lifts(t: Seq<u8>) -> bool {
    &&& t.len() == 256
    &&& t[0] == 0
    &&& t[255] == 255
    &&& forall|v: int| 0 <= v < 256 ==> #[trigger] t[v] >= v
    &&& forall|v: int| 0 <= v < 255 ==> #[trigger] t[v] <= t[v + 1]
}

impl GammaTables {
    /// All three curves lift.
    pub open spec fn wf(&self) -> bool {
        lifts(self.dark@) && lifts(self.medium@) && lifts(self.bright@)
    }

    /// Checks the three curves.
    pub fn check(&self) -> (r: bool)
        ensures
            r == self.wf(),
    {
        check_lifts(&self.dark) && check_lifts(&self.medium) && check_lifts(&self.bright)
    }
}

/// Checks that a gamma curve lifts.
pub fn check_lifts(t: &[u8; 256]) -> (r: bool)
    ensures
        r == lifts(t@),
{
    if t[0] != 0 || t[255] != 255 {
        return false;
    }
    let mut v: usize = 0;
    while v < 256
        invariant
            v <= 256,
            t@.len() == 256,
            forall|k: int| 0 <= k < v ==> #[trigger] t@[k] >= k,
            forall|k: int| 0 <= k < v && k < 255 ==> #[trigger] t@[k] <= t@[k + 1],
        decreases 256 - v,
    {
        if (t[v] as usize) < v {
            return false;
        }
        if v < 255 && t[v] > t[v + 1] {
            return false;
        }
        v = v + 1;
    }
    true
}

/// The whole adaptive pipeline on a raster: auto-levels, contrast and gamma
/// chosen by the mean of the leveled raster, sharpening, then dithering.
pub open spec fn thermal_seq(s: Seq<u8>, w: int, tables: GammaTables) -> Seq<u8> {
    let leveled = levels_seq(s);
    let mean = mean_spec(leveled);
    let tone = tone_for(mean);
    dither_seq(
        unsharp_seq(
            lut_seq(
                contrast_seq(leveled, tone.contrast_pct as int),
                gamma_table_for(tables, tone.gamma_pct),
            ),
            w,
        ),
        w,
    )
}

/// Full thermal preprocessing of a raster, with the gamma curves given as tables.
pub fn thermal_pipeline(img: &mut GrayImage, tables: &GammaTables)
    requires
        old(img).wf(),
    ensures
        final(img).width == old(img).width,
        final(img).height == old(img).height,
        final(img).pixels@ == thermal_seq(old(img).pixels@, old(img).width as int, *tables),
        forall|j: int|
            0 <= j < final(img).pixels@.len() ==> #[trigger] final(img).pixels@[j] == 0
                || final(img).pixels@[j] == 255,
{
    auto_levels(img);
    let mean = mean_brightness(img);
    let tone = select_tone(mean);
    apply_contrast(img, tone.contrast_pct);
    if tone.gamma_pct == 150 {
        apply_lut(img, &tables.dark);
    } else if tone.gamma_pct == 130 {
        apply_lut(img, &tables.medium);
    } else {
        apply_lut(img, &tables.bright);
    }
    unsharp_mask(img);
    floyd_steinberg_dither(img);
}


/// Full thermal preprocessing of an already resized raster.
pub fn dither_for_thermal(img: &mut GrayImage, tables: &GammaTables)
    requires
        old(img).wf(),
    ensures
        final(img).width == old(img).width,
        final(img).height == old(img).height,
        final(img).pixels@ == thermal_seq(old(img).pixels@, old(img).width as int, *tables),
{
    thermal_pipeline(img, tables);
}

// ---------------------------------------------------------------------------
// Decoding and encoding
#[verifier::external_type_specification]
#[verifier::external_body]
pub struct ExDynamicImage(image::DynamicImage);

#[verifier::external_type_specification]
#[verifier::external_body]
pub struct ExImageError(image::ImageError);

/// Whether the bytes are an image that the decoder reads.
pub uninterp spec fn decodes(bytes: Seq<u8>) -> bool;

/// Relies on `image::load_from_memory`: decodes an encoded raster, its format
/// guessed from its bytes; whether that succeeds depends on the bytes alone.
#[verifier::external_body]
fn decode_image(bytes: &[u8]) -> (r: Result<image::DynamicImage, image::ImageError>)
    ensures
        r is Ok <==> decodes(bytes@),
{
    image::load_from_memory(bytes)
}

/// Relies on `DynamicImage::resize` with Lanczos3 filtering: the image scaled
/// to fit `width` pixels wide, its aspect ratio kept.
#[verifier::external_body]
fn resize_to_width(img: &image::DynamicImage, width: u32) -> (r: image::DynamicImage) {
    img.resize(width, u32::MAX, image::imageops::FilterType::Lanczos3)
}

/// Relies on `DynamicImage::to_luma8`: the 8-bit grayscale raster of the image,
/// whose `pixels()` are its `width * height` pixels, row by row.
#[verifier::external_body]
fn to_gray(img: &image::DynamicImage) -> (r: GrayImage)
    ensures
        r.wf(),
{
    let g = img.to_luma8();
    GrayImage { width: g.width(), height: g.height(), pixels: g.pixels().map(|p| p.0[0]).collect() }
}

/// The PNG file that encodes a grayscale raster.
pub uninterp spec fn png_of(width: u32, height: u32, pixels: Seq<u8>) -> Seq<u8>;

/// Whether the PNG encoder succeeds on a grayscale raster.
pub uninterp spec fn png_encodes(width: u32, height: u32, pixels: Seq<u8>) -> bool;

/// Relies on `DynamicImage::write_to` with `ImageFormat::Png`: the lossless PNG
/// encoding of the raster, which depends on the raster alone.
#[verifier::external_body]
fn encode_png(img: &GrayImage) -> (r: Result<Vec<u8>, image::ImageError>)
    requires
        img.wf(),
    ensures
        r is Ok <==> png_encodes(img.width, img.height, img.pixels@),
        r matches Ok(b) ==> b@ == png_of(img.width, img.height, img.pixels@),
{
    let buf = image::GrayImage::from_raw(img.width, img.height, img.pixels.clone()).unwrap();
    let mut out = std::io::Cursor::new(Vec::new());
    image::DynamicImage::ImageLuma8(buf).write_to(&mut out, image::ImageFormat::Png)?;
    Ok(out.into_inner())
}

/// Why an image could not be prepared for printing.
#[derive(Debug, Clone, Copy, PartialEq, Eq, Structural)]
pub enum ImageFailure {
    Decode,
    Encode,
}

impl ImageFailure {
    /// A readable description of the failure.
    pub fn message(&self) -> (r: &'static str)
        ensures
            r@ == match self {
                ImageFailure::Decode => "Image decode failed"@,
                ImageFailure::Encode => "PNG encode failed"@,
            },
    {
        match self {
            ImageFailure::Decode => "Image decode failed",
            ImageFailure::Encode => "PNG encode failed",
        }
    }
}

/// Printable width in dots, leaving margin for the print head's non-printable edges.
pub const PRINTER_WIDTH_PX: u32 = 512;

/// Decodes an image, fits it to the printer width, runs the thermal pipeline
/// on its grayscale raster and re-encodes the 1-bit result as PNG.
pub fn preprocess_for_thermal(raw_bytes: &[u8], tables: &GammaTables) -> (r: Result<
    Vec<u8>,
    ImageFailure,
>)
    ensures
        (r == Err::<Vec<u8>, ImageFailure>(ImageFailure::Decode)) <==> !decodes(raw_bytes@),
        r == Err::<Vec<u8>, ImageFailure>(ImageFailure::Encode) ==> exists|g: GrayImage|
            #![trigger g.wf()]
            g.wf() && !png_encodes(g.width, g.height, thermal_seq(g.pixels@, g.width as int, *tables)),
        r matches Ok(b) ==> exists|g: GrayImage|
            #![trigger g.wf()]
            g.wf() && png_encodes(g.width, g.height, thermal_seq(g.pixels@, g.width as int, *tables))
                && b@ == png_of(g.width, g.height, thermal_seq(g.pixels@, g.width as int, *tables)),
{
    let decoded = match decode_image(raw_bytes) {
        Ok(d) => d,
        Err(_) => {
            return Err(ImageFailure::Decode);
        },
    };
    let resized = resize_to_width(&decoded, PRINTER_WIDTH_PX);
    let mut gray = to_gray(&resized);
    let ghost g0 = gray;
    thermal_pipeline(&mut gray, tables);
    assert(gray.wf());
    match encode_png(&gray) {
        Ok(b) => {
            assert(g0.wf());
            Ok(b)
        },
        Err(_) => {
            assert(g0.wf());
            Err(ImageFailure::Encode)
        },
    }
}

} // verus!
