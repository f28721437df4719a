//! In-memory RGB pixel buffers and the region utilities (blank, crop, blit)
//! that the reconstruction engine works on.

use vstd::prelude::*;

verus! {

/// One RGB sample; each channel is an 8-bit value.
#[derive(Clone, Copy, PartialEq, Eq, Structural, Debug)]
pub struct Pixel {
    pub r: u8,
    pub g: u8,
    pub b: u8,
}

/// Mathematical model of a pixel buffer: its dimensions and the row-major
/// sequence of samples.
#[verifier::ext_equal]
pub ghost struct BufView {
    pub width: nat,
    pub height: nat,
    pub pixels: Seq<Pixel>,
}

impl BufView {
    /// A well-formed buffer stores exactly `width * height` samples and has
    /// dimensions that fit the 32-bit sizes the executable type uses.
    pub open spec fn wf(self) -> bool {
        &&& self.pixels.len() == self.width * self.height
        &&& self.width <= u32::MAX
        &&& self.height <= u32::MAX
    }

    /// The sample in column `x` of row `y`.
    pub open spec fn pix(self, x: int, y: int) -> Pixel {
        self.pixels[y * self.width + x]
    }
}

/// A dense 2-D grid of RGB samples.
pub struct PixelBuffer {
    width: u32,
    height: u32,
    data: Vec<Pixel>,
}

impl View for PixelBuffer {
    type V = BufView;

    closed spec fn view(&self) -> BufView {
        BufView {
            width: self.width as nat,
            height: self.height as nat,
            pixels: self.data@,
        }
    }
}

/// A crop origin clipped to the buffer's width.
pub open spec fn clip_x(b: BufView, x: int) -> int {
    if x <= b.width {
        x
    } else {
        b.width as int
    }
}

/// A crop origin clipped to the buffer's height.
pub open spec fn clip_y(b: BufView, y: int) -> int {
    if y <= b.height {
        y
    } else {
        b.height as int
    }
}

/// A crop width clipped so the rectangle stays inside the buffer.
pub open spec fn clip_w(b: BufView, x: int, w: int) -> int {
    if w <= b.width - clip_x(b, x) {
        w
    } else {
        b.width - clip_x(b, x)
    }
}

/// A crop height clipped so the rectangle stays inside the buffer.
pub open spec fn clip_h(b: BufView, y: int, h: int) -> int {
    if h <= b.height - clip_y(b, y) {
        h
    } else {
        b.height - clip_y(b, y)
    }
}

/// The result of cropping the rectangle at `(x, y)` of size `w × h` out of a
/// buffer, clipped to the buffer's bounds: whatever part of the requested
/// rectangle lies outside the source is silently dropped.
pub open spec fn crop_spec(b: BufView, x: int, y: int, w: int, h: int) -> BufView {
    let x0 = clip_x(b, x);
    let y0 = clip_y(b, y);
    let cw = clip_w(b, x, w);
    let ch = clip_h(b, y, h);
    BufView {
        width: cw as nat,
        height: ch as nat,
        pixels: Seq::new(
            (cw * ch) as nat,
            |k: int| b.pixels[(y0 + k / cw) * b.width + (x0 + k % cw)],
        ),
    }
}

/// What a crop shows at column `i` of row `j`: the source sample at the
/// clipped origin shifted by `(i, j)`.
pub proof fn lemma_crop_pix(b: BufView, x: int, y: int, w: int, h: int, i: int, j: int)
    requires
        0 <= i < clip_w(b, x, w),
        0 <= j < clip_h(b, y, h),
    ensures
        crop_spec(b, x, y, w, h).pixels[j * clip_w(b, x, w) + i] == b.pixels[(clip_y(b, y) + j) * b.width
            + (clip_x(b, x) + i)],
{
    let cw = clip_w(b, x, w);
    let ch = clip_h(b, y, h);
    let k0 = j * cw + i;
    vstd::arithmetic::div_mod::lemma_fundamental_div_mod_converse(k0, cw, j, i);
    assert(0 <= k0 < cw * ch) by (nonlinear_arith)
        requires
            k0 == j * cw + i,
            0 <= i < cw,
            0 <= j < ch,
    ;
}

/// The result of copying every sample of `src` into `dst` at offset
/// `(x, y)`: destination coordinates outside `dst`'s bounds are silently
/// skipped, every other sample of `dst` is kept.
pub open spec fn blit_spec(dst: BufView, src: BufView, x: int, y: int) -> BufView {
    BufView {
        width: dst.width,
        height: dst.height,
        pixels: Seq::new(
            dst.pixels.len(),
            |k: int|
                {
                    let dx = k % (dst.width as int);
                    let dy = k / (dst.width as int);
                    if x <= dx < x + src.width && y <= dy < y + src.height {
                        src.pixels[(dy - y) * src.width + (dx - x)]
                    } else {
                        dst.pixels[k]
                    }
                },
        ),
    }
}

/// An all-black buffer of the given dimensions.
pub open spec fn blank_spec(w: int, h: int) -> BufView {
    BufView {
        width: w as nat,
        height: h as nat,
        pixels: Seq::new((w * h) as nat, |k: int| Pixel { r: 0, g: 0, b: 0 }),
    }
}

/// A row-major index stays inside the buffer: `y * w + x < w * h`
/// whenever `x < w` and `y < h`.
proof fn lemma_row_major_index(x: int, y: int, w: int, h: int)
    by (nonlinear_arith)
    requires
        0 <= x < w,
        0 <= y < h,
    ensures
        0 <= y * w + x < w * h,
{
}

impl PixelBuffer {
    /// An all-black buffer of the given dimensions.
    pub fn new(width: u32, height: u32) -> (result: PixelBuffer)
        requires
            width * height <= usize::MAX,
        ensures
            result@.wf(),
            result@.width == width,
            result@.height == height,
            result@.pixels =~= Seq::new((width * height) as nat, |k: int| Pixel { r: 0, g: 0, b: 0 }),
    {
        let total: usize = (width as usize) * (height as usize);
        let mut data: Vec<Pixel> = Vec::new();
        let mut k: usize = 0;
        while k < total
            invariant
                k <= total,
                total == width * height,
                data@.len() == k,
                forall|j: int| 0 <= j < k ==> data@[j] == (Pixel { r: 0, g: 0, b: 0 }),
            decreases total - k,
        {
            data.push(Pixel { r: 0, g: 0, b: 0 });
            k = k + 1;
        }
        PixelBuffer { width, height, data }
    }

    /// A buffer that takes ownership of row-major sample data.
    pub fn from_pixels(width: u32, height: u32, data: Vec<Pixel>) -> (result: PixelBuffer)
        requires
            data@.len() == width * height,
        ensures
            result@.wf(),
            result@.width == width,
            result@.height == height,
            result@.pixels == data@,
    {
        PixelBuffer { width, height, data }
    }

    pub fn width(&self) -> (w: u32)
        ensures
            w == self@.width,
    {
        self.width
    }

    pub fn height(&self) -> (h: u32)
        ensures
            h == self@.height,
    {
        self.height
    }

    /// The sample at column `x` of row `y`.
    pub fn get_pixel(&self, x: u32, y: u32) -> (p: Pixel)
        requires
            self@.wf(),
            x < self@.width,
            y < self@.height,
        ensures
            p == self@.pix(x as int, y as int),
    {
        proof {
            lemma_row_major_index(x as int, y as int, self@.width as int, self@.height as int);
            assert((y as int) * (self@.width as int) + (x as int) <= u64::MAX) by (nonlinear_arith)
                requires
                    x <= u32::MAX,
                    y <= u32::MAX,
                    self@.width <= u32::MAX,
            ;
        }
        let n: usize = self.data.len();
        let idx: u64 = (y as u64) * (self.width as u64) + (x as u64);
        proof {
            assert(idx < n);
        }
        self.data[idx as usize]
    }

    /// Overwrites the sample at column `x` of row `y`.
    pub fn set_pixel(&mut self, x: u32, y: u32, p: Pixel)
        requires
            old(self)@.wf(),
            x < old(self)@.width,
            y < old(self)@.height,
        ensures
            final(self)@.wf(),
            final(self)@.width == old(self)@.width,
            final(self)@.height == old(self)@.height,
            final(self)@.pixels == old(self)@.pixels.update(
                y * old(self)@.width + x,
                p,
            ),
    {
        proof {
            lemma_row_major_index(x as int, y as int, self@.width as int, self@.height as int);
            assert((y as int) * (self@.width as int) + (x as int) <= u64::MAX) by (nonlinear_arith)
                requires
                    x <= u32::MAX,
                    y <= u32::MAX,
                    self@.width <= u32::MAX,
            ;
        }
        let n: usize = self.data.len();
        let idx: u64 = (y as u64) * (self.width as u64) + (x as u64);
        proof {
            assert(idx < n);
        }
        let i: usize = idx as usize;
        self.data.set(i, p);
    }
}

/// A new all-black buffer with the same dimensions as the template.
pub fn blank_image(image: &PixelBuffer) -> (result: PixelBuffer)
    requires
        image@.wf(),
    ensures
        result@.wf(),
        result@ == blank_spec(image@.width as int, image@.height as int),
{
    // reading the stored length shows the template's area fits in usize
    let _n: usize = image.data.len();
    let result = PixelBuffer::new(image.width(), image.height());
    proof {
        assert(result@ =~= blank_spec(image@.width as int, image@.height as int));
    }
    result
}

/// A new buffer holding the rectangle of `original` at `(crop_x, crop_y)` of
/// size `crop_width × crop_height`, clipped to `original`'s bounds.
pub fn crop_image(
    original: &PixelBuffer,
    crop_x: u64,
    crop_y: u64,
    crop_width: u32,
    crop_height: u32,
) -> (cropped: PixelBuffer)
    requires
        original@.wf(),
    ensures
        cropped@.wf(),
        cropped@ == crop_spec(
            original@,
            crop_x as int,
            crop_y as int,
            crop_width as int,
            crop_height as int,
        ),
{
    let ghost bv = original@;
    let ghost cropv = crop_spec(bv, crop_x as int, crop_y as int, crop_width as int, crop_height as int);
    let bw = original.width();
    let bh = original.height();
    let x0: u32 = if crop_x <= bw as u64 {
        crop_x as u32
    } else {
        bw
    };
    let y0: u32 = if crop_y <= bh as u64 {
        crop_y as u32
    } else {
        bh
    };
    let cw: u32 = if crop_width <= bw - x0 {
        crop_width
    } else {
        bw - x0
    };
    let ch: u32 = if crop_height <= bh - y0 {
        crop_height
    } else {
        bh - y0
    };
    proof {
        assert(clip_x(bv, crop_x as int) == x0 && clip_y(bv, crop_y as int) == y0 && clip_w(
            bv,
            crop_x as int,
            crop_width as int,
        ) == cw && clip_h(bv, crop_y as int, crop_height as int) == ch);
        assert(cropv.width == cw && cropv.height == ch);
    }
    let mut data: Vec<Pixel> = Vec::new();
    let mut j: u32 = 0;
    while j < ch
        invariant
            bv == original@,
            bv.wf(),
            cropv == crop_spec(bv, crop_x as int, crop_y as int, crop_width as int, crop_height as int),
            cropv.width == cw,
            cropv.height == ch,
            clip_x(bv, crop_x as int) == x0,
            clip_y(bv, crop_y as int) == y0,
            clip_w(bv, crop_x as int, crop_width as int) == cw,
            clip_h(bv, crop_y as int, crop_height as int) == ch,
            x0 + cw <= bv.width,
            y0 + ch <= bv.height,
            j <= ch,
            data@.len() == j * cw,
            forall|k: int| 0 <= k < data@.len() ==> data@[k] == cropv.pixels[k],
        decreases ch - j,
    {
        let mut i: u32 = 0;
        proof {
            assert(j * cw + cw == (j + 1) * cw) by (nonlinear_arith);
            assert((j + 1) * cw <= ch * cw) by (nonlinear_arith)
                requires
                    j + 1 <= ch,
                    cw >= 0,
            ;
        }
        while i < cw
            invariant
                bv == original@,
                bv.wf(),
                cropv == crop_spec(bv, crop_x as int, crop_y as int, crop_width as int, crop_height as int),
                cropv.width == cw,
                cropv.height == ch,
                clip_x(bv, crop_x as int) == x0,
                clip_y(bv, crop_y as int) == y0,
                clip_w(bv, crop_x as int, crop_width as int) == cw,
                clip_h(bv, crop_y as int, crop_height as int) == ch,
                x0 + cw <= bv.width,
                y0 + ch <= bv.height,
                j < ch,
                i <= cw,
                data@.len() == j * cw + i,
                j * cw + cw <= ch * cw,
                forall|k: int| 0 <= k < data@.len() ==> data@[k] == cropv.pixels[k],
            decreases cw - i,
        {
            let p = original.get_pixel(x0 + i, y0 + j);
            proof {
                lemma_crop_pix(
                    bv,
                    crop_x as int,
                    crop_y as int,
                    crop_width as int,
                    crop_height as int,
                    i as int,
                    j as int,
                );
                assert(cropv.pixels[(j * cw + i) as int] == bv.pixels[(y0 + j) * bv.width + (x0
                    + i)]);
            }
            data.push(p);
            i = i + 1;
        }
        j = j + 1;
    }
    proof {
        assert(ch * cw == cw * ch) by (nonlinear_arith);
    }
    let cropped = PixelBuffer::from_pixels(cw, ch, data);
    proof {
        assert(cropped@ =~= cropv);
    }
    cropped
}

/// A blit step whose destination coordinate falls outside the destination
/// changes nothing: no flat index maps to it.
proof fn lemma_blit_skip(dv: BufView, sv: BufView, x: int, y: int, sy: int, sx: int)
    requires
        dv.wf(),
        0 <= x,
        0 <= y,
        0 <= sy,
        0 <= sx,
        x + sx >= dv.width || y + sy >= dv.height,
    ensures
        forall|k: int|
            0 <= k < dv.pixels.len() ==> blit_partial_pix(dv, sv, x, y, sy, sx + 1, k)
                == blit_partial_pix(dv, sv, x, y, sy, sx, k),
{
    let wv = dv.width as int;
    assert forall|k: int|
        0 <= k < dv.pixels.len() implies blit_partial_pix(dv, sv, x, y, sy, sx + 1, k)
        == blit_partial_pix(dv, sv, x, y, sy, sx, k) by {
        assert(dv.width * dv.height > 0);
        assert(dv.width > 0) by (nonlinear_arith)
            requires
                dv.width * dv.height > 0,
        ;
        vstd::arithmetic::div_mod::lemma_fundamental_div_mod(k, wv);
        vstd::arithmetic::div_mod::lemma_mod_bound(k, wv);
        assert(k / wv < dv.height) by (nonlinear_arith)
            requires
                wv == dv.width,
                0 < wv,
                k == wv * (k / wv) + k % wv,
                0 <= k % wv < wv,
                k < dv.width * dv.height,
        ;
    };
}

/// Which sample a partially completed blit shows at flat index `k`: source
/// rows before `sy`, and the first `sx` samples of row `sy`, have been
/// copied; everything else still shows `dst`.
spec fn blit_partial_pix(dst: BufView, src: BufView, x: int, y: int, sy: int, sx: int, k: int) -> Pixel {
    let dx = k % (dst.width as int);
    let dy = k / (dst.width as int);
    if x <= dx < x + src.width && y <= dy < y + src.height && ((dy - y) < sy || ((dy - y) == sy
        && (dx - x) < sx)) {
        src.pixels[(dy - y) * src.width + (dx - x)]
    } else {
        dst.pixels[k]
    }
}

/// Copies every sample of `src` into `dest` at offset `(x, y)`; destination
/// coordinates outside `dest`'s bounds are skipped, not an error.
pub fn place_image(dest: &mut PixelBuffer, src: &PixelBuffer, x: u64, y: u64)
    requires
        old(dest)@.wf(),
        src@.wf(),
    ensures
        final(dest)@.wf(),
        final(dest)@ == blit_spec(old(dest)@, src@, x as int, y as int),
{
    let ghost dv = old(dest)@;
    let ghost sv = src@;
    let w = dest.width();
    let h = dest.height();
    let sw = src.width();
    let sh = src.height();
    let mut sy: u32 = 0;
    while sy < sh
        invariant
            dv.wf(),
            sv == src@,
            sv.wf(),
            w == dv.width,
            h == dv.height,
            sw == sv.width,
            sh == sv.height,
            sy <= sh,
            dest@.width == dv.width,
            dest@.height == dv.height,
            dest@.pixels.len() == dv.pixels.len(),
            dest@.wf(),
            forall|k: int|
                0 <= k < dv.pixels.len() ==> dest@.pixels[k] == blit_partial_pix(
                    dv,
                    sv,
                    x as int,
                    y as int,
                    sy as int,
                    0,
                    k,
                ),
        decreases sh - sy,
    {
        let mut sx: u32 = 0;
        while sx < sw
            invariant
                dv.wf(),
                sv == src@,
                sv.wf(),
                w == dv.width,
                h == dv.height,
                sw == sv.width,
                sh == sv.height,
                sy < sh,
                sx <= sw,
                dest@.width == dv.width,
                dest@.height == dv.height,
                dest@.pixels.len() == dv.pixels.len(),
                dest@.wf(),
                forall|k: int|
                    0 <= k < dv.pixels.len() ==> dest@.pixels[k] == blit_partial_pix(
                        dv,
                        sv,
                        x as int,
                        y as int,
                        sy as int,
                        sx as int,
                        k,
                    ),
            decreases sw - sx,
        {
            if x < w as u64 && y < h as u64 {
                let dx: u64 = x + (sx as u64);
                let dy: u64 = y + (sy as u64);
                if dx < w as u64 && dy < h as u64 {
                    let p = src.get_pixel(sx, sy);
                    let ghost pre = dest@;
                    dest.set_pixel(dx as u32, dy as u32, p);
                    proof {
                        let wv = dv.width as int;
                        let k0 = (dy as int) * wv + (dx as int);
                        vstd::arithmetic::div_mod::lemma_fundamental_div_mod_converse(
                            k0,
                            wv,
                            dy as int,
                            dx as int,
                        );
                        lemma_row_major_index(dx as int, dy as int, wv, dv.height as int);
                        assert forall|k: int|
                            0 <= k < dv.pixels.len() implies dest@.pixels[k] == blit_partial_pix(
                            dv,
                            sv,
                            x as int,
                            y as int,
                            sy as int,
                            sx + 1,
                            k,
                        ) by {
                            vstd::arithmetic::div_mod::lemma_fundamental_div_mod(k, wv);
                            vstd::arithmetic::div_mod::lemma_mod_bound(k, wv);
                            vstd::arithmetic::mul::lemma_mul_is_commutative(wv, k / wv);
                            if k != k0 {
                                assert(k % wv != dx as int || k / wv != dy as int);
                                assert(dest@.pixels[k] == pre.pixels[k]);
                            }
                        };
                    }
                } else {
                    proof {
                        lemma_blit_skip(dv, sv, x as int, y as int, sy as int, sx as int);
                    }
                }
            } else {
                proof {
                    lemma_blit_skip(dv, sv, x as int, y as int, sy as int, sx as int);
                }
            }
            sx = sx + 1;
        }
        proof {
            assert(forall|k: int|
                0 <= k < dv.pixels.len() ==> blit_partial_pix(dv, sv, x as int, y as int, sy as int, sw as int, k)
                    == blit_partial_pix(dv, sv, x as int, y as int, sy + 1, 0, k));
        }
        sy = sy + 1;
    }
    proof {
        let target = blit_spec(dv, sv, x as int, y as int);
        assert forall|k: int| 0 <= k < dv.pixels.len() implies dest@.pixels[k] == target.pixels[k] by {
        };
        assert(dest@.pixels =~= target.pixels);
        assert(dest@ =~= target);
    }
}

} // verus!
