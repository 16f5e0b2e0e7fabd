//! Skin images: a 72x24 artwork cut into 27 tiles of 8x8, each laid onto the
//! face of a 64x64 skin, with an optional number drawn on the torso.
use vstd::prelude::*;
use std::collections::HashMap;
use crate::text::{decimal_int, decimal_nat, digit_char, str_chars, with_decimal};

verus! {

/// An RGBA image with 8-bit channels: rows top to bottom, each pixel four
/// bytes (red, green, blue, alpha).
pub struct RgbaImage {
    pub width: u32,
    pub height: u32,
    pub pixels: Vec<u8>,
}

/// Where channel `c` of pixel (x, y) sits in a buffer `w` pixels wide.
pub open spec fn chan_index(w: int, x: int, y: int, c: int) -> int {
    (y * w + x) * 4 + c
}

impl RgbaImage {
    /// The buffer holds exactly four bytes per pixel.
    pub open spec fn wf(&self) -> bool {
        self.pixels@.len() == self.width * self.height * 4
    }

    /// Channel `c` of pixel (x, y).
    pub open spec fn chan(&self, x: int, y: int, c: int) -> u8 {
        self.pixels@[chan_index(self.width as int, x, y, c)]
    }

    /// Pixel (x, y) holds the colour `p`.
    pub open spec fn pixel_is(&self, x: int, y: int, p: Seq<u8>) -> bool {
        forall|c: int| 0 <= c < 4 ==> #[trigger] self.chan(x, y, c) == p[c]
    }
}

/// The channels of pixels inside the image lie inside the buffer.
pub proof fn lemma_chan_index_bound(w: int, h: int, x: int, y: int, c: int)
    requires
        0 <= x < w,
        0 <= y < h,
        0 <= c < 4,
    ensures
        0 <= chan_index(w, x, y, c) < w * h * 4,
        chan_index(w, x, y, c) + 4 - c <= w * h * 4,
{
    assert(0 <= y * w) by (nonlinear_arith)
        requires
            0 <= y,
            0 <= w,
    ;
    assert(y * w + x < w * h) by (nonlinear_arith)
        requires
            0 <= x < w,
            0 <= y < h,
    ;
}

/// Distinct channels of distinct pixels occupy distinct bytes.
pub proof fn lemma_chan_index_injective(w: int, x1: int, y1: int, c1: int, x2: int, y2: int, c2: int)
    requires
        0 <= x1 < w,
        0 <= x2 < w,
        0 <= y1,
        0 <= y2,
        0 <= c1 < 4,
        0 <= c2 < 4,
        chan_index(w, x1, y1, c1) == chan_index(w, x2, y2, c2),
    ensures
        x1 == x2,
        y1 == y2,
        c1 == c2,
{
    let p1 = y1 * w + x1;
    let p2 = y2 * w + x2;
    assert(p1 == p2 && c1 == c2);
    assert(y1 == y2) by (nonlinear_arith)
        requires
            0 <= x1 < w,
            0 <= x2 < w,
            0 <= y1,
            0 <= y2,
            y1 * w + x1 == y2 * w + x2,
    ;
}

/// Byte `k` of a buffer filled with `p` is channel `k % 4` of `p`.
proof fn lemma_filled_chan(w: int, x: int, y: int, c: int)
    requires
        0 <= x < w,
        0 <= y,
        0 <= c < 4,
    ensures
        chan_index(w, x, y, c) % 4 == c,
{
    let m = y * w + x;
    assert((m * 4 + c) % 4 == c) by (nonlinear_arith)
        requires
            0 <= c < 4,
    ;
}

impl RgbaImage {
    /// An image of the given size with every pixel `p`
    /// (`ImageBuffer::from_pixel`).
    pub fn new_filled(width: u32, height: u32, p: [u8; 4]) -> (img: RgbaImage)
        requires
            width * height * 4 <= usize::MAX,
        ensures
            img.width == width,
            img.height == height,
            img.wf(),
            forall|x: int, y: int| 0 <= x < width && 0 <= y < height ==> #[trigger] img.pixel_is(x, y, p@),
    {
        let n: usize = width as usize * height as usize;
        let mut pixels: Vec<u8> = Vec::new();
        let mut i: usize = 0;
        while i < n
            invariant
                n == width * height,
                n * 4 <= usize::MAX,
                i <= n,
                pixels@.len() == i * 4,
                forall|k: int| 0 <= k < pixels@.len() ==> #[trigger] pixels@[k] == p@[k % 4],
            decreases n - i,
        {
            let ghost before = pixels@;
            pixels.push(p[0]);
            pixels.push(p[1]);
            pixels.push(p[2]);
            pixels.push(p[3]);
            proof {
                assert forall|k: int| 0 <= k < pixels@.len() implies #[trigger] pixels@[k] == p@[k % 4] by {
                    if k >= before.len() {
                        let j = k - before.len();
                        assert(k % 4 == j) by (nonlinear_arith)
                            requires
                                k == i * 4 + j,
                                0 <= j < 4,
                        ;
                    }
                }
            }
            i = i + 1;
        }
        let img = RgbaImage { width, height, pixels };
        proof {
            assert forall|x: int, y: int| 0 <= x < width && 0 <= y < height implies #[trigger] img.pixel_is(x, y, p@) by {
                assert forall|c: int| 0 <= c < 4 implies #[trigger] img.chan(x, y, c) == p@[c] by {
                    lemma_chan_index_bound(width as int, height as int, x, y, c);
                    lemma_filled_chan(width as int, x, y, c);
                }
            }
        }
        img
    }

    /// Channel `c` of pixel (x, y), in bounds.
    fn channel(&self, x: u32, y: u32, c: usize) -> (v: u8)
        requires
            self.wf(),
            x < self.width,
            y < self.height,
            c < 4,
        ensures
            v == self.chan(x as int, y as int, c as int),
    {
        let len = self.pixels.len();
        proof {
            lemma_chan_index_bound(self.width as int, self.height as int, x as int, y as int, c as int);
            assert(y * self.width <= y * self.width + x);
        }
        let idx: usize = (y as usize * self.width as usize + x as usize) * 4 + c;
        self.pixels[idx]
    }

    /// The colour of pixel (x, y) (`ImageBuffer::get_pixel`).
    pub fn get_pixel(&self, x: u32, y: u32) -> (p: [u8; 4])
        requires
            self.wf(),
            x < self.width,
            y < self.height,
        ensures
            self.pixel_is(x as int, y as int, p@),
    {
        [self.channel(x, y, 0), self.channel(x, y, 1), self.channel(x, y, 2), self.channel(x, y, 3)]
    }

    /// Sets pixel (x, y) to `p` and leaves every other pixel as it was
    /// (`ImageBuffer::put_pixel`).
    pub fn put_pixel(&mut self, x: u32, y: u32, p: [u8; 4])
        requires
            old(self).wf(),
            x < old(self).width,
            y < old(self).height,
        ensures
            final(self).width == old(self).width,
            final(self).height == old(self).height,
            final(self).wf(),
            forall|a: int, b: int, c: int|
                0 <= a < old(self).width && 0 <= b < old(self).height && 0 <= c < 4 ==>
                #[trigger] final(self).chan(a, b, c) == if a == x && b == y { p@[c] } else { old(self).chan(a, b, c) },
    {
        let w = self.width;
        let h = self.height;
        let len = self.pixels.len();
        proof {
            lemma_chan_index_bound(w as int, h as int, x as int, y as int, 0);
        }
        let idx: usize = (y as usize * w as usize + x as usize) * 4;
        self.pixels.set(idx, p[0]);
        self.pixels.set(idx + 1, p[1]);
        self.pixels.set(idx + 2, p[2]);
        self.pixels.set(idx + 3, p[3]);
        proof {
            assert forall|a: int, b: int, c: int|
                0 <= a < w && 0 <= b < h && 0 <= c < 4 implies
                #[trigger] self.chan(a, b, c) == if a == x && b == y { p@[c] } else { old(self).chan(a, b, c) } by {
                let k = chan_index(w as int, a, b, c);
                lemma_chan_index_bound(w as int, h as int, a, b, c);
                if a == x && b == y {
                    assert(k == idx + c);
                } else {
                    if idx <= k < idx + 4 {
                        lemma_chan_index_injective(w as int, a, b, c, x as int, y as int, k - idx);
                    }
                }
            }
        }
    }

    /// The `w` x `h` block whose top-left corner is (x, y), inside the image.
    fn crop_inside(&self, x: u32, y: u32, w: u32, h: u32) -> (out: RgbaImage)
        requires
            self.wf(),
            x + w <= self.width,
            y + h <= self.height,
        ensures
            out.width == w,
            out.height == h,
            out.wf(),
            forall|a: int, b: int, c: int| 0 <= a < w && 0 <= b < h && 0 <= c < 4 ==>
                #[trigger] out.chan(a, b, c) == self.chan(x + a, y + b, c),
    {
        let ghost sw = self.width as int;
        let ghost sh = self.height as int;
        let len = self.pixels.len();
        proof {
            assert(w * h <= sw * sh) by (nonlinear_arith)
                requires
                    0 <= w <= sw,
                    0 <= h <= sh,
            ;
        }
        let mut pixels: Vec<u8> = Vec::new();
        let mut b: u32 = 0;
        while b < h
            invariant
                self.wf(),
                x + w <= self.width,
                y + h <= self.height,
                w * h * 4 <= usize::MAX,
                b <= h,
                pixels@.len() == chan_index(w as int, 0, b as int, 0),
                forall|a2: int, b2: int, c2: int|
                    0 <= a2 < w && 0 <= b2 && 0 <= c2 < 4 && chan_index(w as int, a2, b2, c2) < pixels@.len() ==>
                    pixels@[#[trigger] chan_index(w as int, a2, b2, c2)] == self.chan(x + a2, y + b2, c2),
            decreases h - b,
        {
            let mut a: u32 = 0;
            while a < w
                invariant
                    self.wf(),
                    x + w <= self.width,
                    y + h <= self.height,
                    w * h * 4 <= usize::MAX,
                    b < h,
                    a <= w,
                    pixels@.len() == chan_index(w as int, a as int, b as int, 0),
                    forall|a2: int, b2: int, c2: int|
                        0 <= a2 < w && 0 <= b2 && 0 <= c2 < 4 && chan_index(w as int, a2, b2, c2) < pixels@.len() ==>
                        pixels@[#[trigger] chan_index(w as int, a2, b2, c2)] == self.chan(x + a2, y + b2, c2),
                decreases w - a,
            {
                let ghost before = pixels@;
                proof {
                    lemma_chan_index_bound(w as int, h as int, a as int, b as int, 0);
                }
                pixels.push(self.channel(x + a, y + b, 0));
                pixels.push(self.channel(x + a, y + b, 1));
                pixels.push(self.channel(x + a, y + b, 2));
                pixels.push(self.channel(x + a, y + b, 3));
                proof {
                    assert forall|a2: int, b2: int, c2: int|
                        0 <= a2 < w && 0 <= b2 && 0 <= c2 < 4 && chan_index(w as int, a2, b2, c2) < pixels@.len() implies
                        pixels@[#[trigger] chan_index(w as int, a2, b2, c2)] == self.chan(x + a2, y + b2, c2) by {
                        let k = chan_index(w as int, a2, b2, c2);
                        if k >= before.len() {
                            lemma_chan_index_injective(w as int, a2, b2, c2, a as int, b as int, k - before.len());
                        }
                    }
                }
                a = a + 1;
            }
            proof {
                assert(chan_index(w as int, w as int, b as int, 0) == chan_index(w as int, 0, b + 1, 0)) by (nonlinear_arith);
            }
            b = b + 1;
        }
        let out = RgbaImage { width: w, height: h, pixels };
        proof {
            assert(chan_index(w as int, 0, h as int, 0) == w * h * 4) by (nonlinear_arith);
            assert forall|a: int, b2: int, c: int| 0 <= a < w && 0 <= b2 < h && 0 <= c < 4 implies
                #[trigger] out.chan(a, b2, c) == self.chan(x + a, y + b2, c) by {
                lemma_chan_index_bound(w as int, h as int, a, b2, c);
            }
        }
        out
    }
}

/// The block that `crop` cuts: the corner and the size, clipped to the image
/// as `imageops::crop_imm` clips them.
pub open spec fn clip_block(iw: int, ih: int, x: int, y: int, w: int, h: int) -> (int, int, int, int) {
    let cx = if x < iw { x } else { iw };
    let cy = if y < ih { y } else { ih };
    let cw = if w < iw - cx { w } else { iw - cx };
    let ch = if h < ih - cy { h } else { ih - cy };
    (cx, cy, cw, ch)
}

/// `t` is the block of `src` with top-left corner (x, y), `w` x `h` before
/// clipping.
pub open spec fn is_block_of(t: RgbaImage, src: RgbaImage, x: int, y: int, w: int, h: int) -> bool {
    let (cx, cy, cw, ch) = clip_block(src.width as int, src.height as int, x, y, w, h);
    &&& t.width == cw
    &&& t.height == ch
    &&& t.wf()
    &&& forall|a: int, b: int, c: int| 0 <= a < cw && 0 <= b < ch && 0 <= c < 4 ==>
        #[trigger] t.chan(a, b, c) == src.chan(cx + a, cy + b, c)
}

impl RgbaImage {
    /// The `w` x `h` block whose top-left corner is (x, y), clipped to the
    /// image (`imageops::crop_imm(..).to_image()`).
    pub fn crop(&self, x: u32, y: u32, w: u32, h: u32) -> (out: RgbaImage)
        requires
            self.wf(),
        ensures
            is_block_of(out, *self, x as int, y as int, w as int, h as int),
    {
        let cx = if x < self.width { x } else { self.width };
        let cy = if y < self.height { y } else { self.height };
        let cw = if w < self.width - cx { w } else { self.width - cx };
        let ch = if h < self.height - cy { h } else { self.height - cy };
        self.crop_inside(cx, cy, cw, ch)
    }
}

/// What the `image` crate decodes from `bytes` (format guessed from the
/// content, pixels converted to RGBA): width, height and the pixel buffer,
/// or the text of its error.
pub uninterp spec fn decoded_rgba(bytes: Seq<u8>) -> Result<(u32, u32, Seq<u8>), Seq<char>>;

/// `image::load_from_memory(bytes)` then `to_rgba8()`, named by
/// `decoded_rgba`. The buffer of an `ImageBuffer` is at least four bytes per
/// pixel (`ImageBuffer::from_raw` checks it); that it is not longer is not
/// claimed.
#[verifier::external_body]
fn decode_rgba(bytes: &[u8]) -> (r: Result<RgbaImage, String>)
    ensures
        match r {
            Ok(img) => {
                &&& img.pixels@.len() >= img.width * img.height * 4
                &&& decoded_rgba(bytes@) == Ok::<(u32, u32, Seq<u8>), Seq<char>>((img.width, img.height, img.pixels@))
            },
            Err(e) => decoded_rgba(bytes@) == Err::<(u32, u32, Seq<u8>), Seq<char>>(e@),
        },
{
    match ::image::load_from_memory(bytes) {
        Ok(d) => {
            let b = d.to_rgba8();
            Ok(RgbaImage { width: b.width(), height: b.height(), pixels: b.into_raw() })
        },
        Err(e) => Err(e.to_string()),
    }
}

/// The image that `bytes` decode to, its buffer cut to four bytes a pixel.
pub open spec fn decoded_image(bytes: Seq<u8>) -> Result<(u32, u32, Seq<u8>), Seq<char>> {
    match decoded_rgba(bytes) {
        Ok((w, h, px)) => Ok((w, h, px.take(w * h * 4))),
        Err(e) => Err(e),
    }
}

/// Decodes an image file held in memory into RGBA pixels.
pub fn decode_image(bytes: &[u8]) -> (r: Result<RgbaImage, String>)
    ensures
        match r {
            Ok(img) => img.wf() && decoded_image(bytes@) == Ok::<(u32, u32, Seq<u8>), Seq<char>>((img.width, img.height, img.pixels@)),
            Err(e) => decoded_image(bytes@) == Err::<(u32, u32, Seq<u8>), Seq<char>>(e@),
        },
{
    match decode_rgba(bytes) {
        Ok(img) => {
            let mut img = img;
            let len = img.pixels.len();
            proof {
                assert(img.width * img.height <= img.width * img.height * 4) by (nonlinear_arith);
            }
            let n: usize = img.width as usize * img.height as usize * 4;
            img.pixels.truncate(n);
            Ok(img)
        },
        Err(e) => Err(e),
    }
}

/// What `imageops::resize` with `FilterType::Nearest` makes of a `w` x `h`
/// image with the given pixels at the size `nw` x `nh`.
pub uninterp spec fn resized_nearest(w: u32, h: u32, pixels: Seq<u8>, nw: u32, nh: u32) -> Seq<u8>;

/// `imageops::resize(.., nw, nh, FilterType::Nearest)`, named by
/// `resized_nearest`. The new buffer is allocated at four bytes a pixel, and
/// at an unchanged size the image is copied as it is.
#[verifier::external_body]
fn resize_nearest(img: &RgbaImage, nw: u32, nh: u32) -> (out: RgbaImage)
    requires
        img.wf(),
        nw * nh * 4 <= usize::MAX,
    ensures
        out.width == nw,
        out.height == nh,
        out.wf(),
        out.pixels@ == resized_nearest(img.width, img.height, img.pixels@, nw, nh),
        nw == img.width && nh == img.height ==> out.pixels@ == img.pixels@,
{
    let src = ::image::RgbaImage::from_raw(img.width, img.height, img.pixels.clone()).unwrap();
    let b = ::image::imageops::resize(&src, nw, nh, ::image::imageops::FilterType::Nearest);
    RgbaImage { width: b.width(), height: b.height(), pixels: b.into_raw() }
}

/// The PNG file that the `image` crate writes for a `w` x `h` RGBA image, or
/// the text of its error.
pub uninterp spec fn png_of(w: u32, h: u32, pixels: Seq<u8>) -> Result<Seq<u8>, Seq<char>>;

/// `DynamicImage::ImageRgba8(..).write_to(.., ImageFormat::Png)` into a
/// fresh buffer, named by `png_of`.
#[verifier::external_body]
pub(crate) fn encode_png(img: &RgbaImage) -> (r: Result<Vec<u8>, String>)
    requires
        img.wf(),
    ensures
        match r {
            Ok(v) => png_of(img.width, img.height, img.pixels@) == Ok::<Seq<u8>, Seq<char>>(v@),
            Err(e) => png_of(img.width, img.height, img.pixels@) == Err::<Seq<u8>, Seq<char>>(e@),
        },
{
    let b = ::image::RgbaImage::from_raw(img.width, img.height, img.pixels.clone()).unwrap();
    let mut out: Vec<u8> = Vec::new();
    ::image::DynamicImage::ImageRgba8(b)
        .write_to(&mut std::io::Cursor::new(&mut out), ::image::ImageFormat::Png)
        .map_err(|e| e.to_string())?;
    Ok(out)
}

/// What `imageops::overlay` makes of the bottom image after laying the top
/// one on it with its corner at (x, y).
pub uninterp spec fn overlaid(bw: u32, bh: u32, bottom: Seq<u8>, tw: u32, th: u32, top: Seq<u8>, x: i64, y: i64) -> Seq<u8>;

/// Pixel (a, b) of the bottom image lies under the top image.
pub open spec fn under_top(a: int, b: int, tw: int, th: int, x: int, y: int) -> bool {
    x <= a < x + tw && y <= b < y + th
}

/// `imageops::overlay(bottom, top, x, y)`, named by `overlaid`. As its source
/// shows, only the pixels under the top image change; each is blended with
/// the top pixel over it, and the blend keeps the bottom pixel where the top
/// one is fully transparent and takes the top pixel where it is fully opaque.
/// In between the blend computes in floating point and is not described.
#[verifier::external_body]
fn overlay(bottom: &mut RgbaImage, top: &RgbaImage, x: i64, y: i64)
    requires
        old(bottom).wf(),
        top.wf(),
    ensures
        final(bottom).width == old(bottom).width,
        final(bottom).height == old(bottom).height,
        final(bottom).wf(),
        final(bottom).pixels@ == overlaid(old(bottom).width, old(bottom).height, old(bottom).pixels@, top.width, top.height, top.pixels@, x, y),
        forall|a: int, b: int, c: int| 0 <= a < old(bottom).width && 0 <= b < old(bottom).height && 0 <= c < 4 ==> {
            let tx = a - x;
            let ty = b - y;
            #[trigger] final(bottom).chan(a, b, c) == if !under_top(a, b, top.width as int, top.height as int, x as int, y as int) {
                old(bottom).chan(a, b, c)
            } else if top.chan(tx, ty, 3) == 0 {
                old(bottom).chan(a, b, c)
            } else if top.chan(tx, ty, 3) == 255 {
                top.chan(tx, ty, c)
            } else {
                final(bottom).chan(a, b, c)
            }
        },
{
    let mut b = ::image::RgbaImage::from_raw(bottom.width, bottom.height, bottom.pixels.clone()).unwrap();
    let t = ::image::RgbaImage::from_raw(top.width, top.height, top.pixels.clone()).unwrap();
    ::image::imageops::overlay(&mut b, &t, x, y);
    bottom.pixels = b.into_raw();
}

/// Loads the artwork and brings it to 72x24 pixels (nearest neighbour) when
/// it has another size.
pub fn load_72x24(bytes: &[u8]) -> (r: Result<RgbaImage, String>)
    ensures
        match decoded_image(bytes@) {
            Err(e) => r matches Err(x) && x@ == e,
            Ok((w, h, px)) => r matches Ok(img) && img.width == 72 && img.height == 24 && img.wf()
                && img.pixels@ == if w == 72 && h == 24 { px } else { resized_nearest(w, h, px, 72, 24) },
        },
{
    let img = decode_image(bytes)?;
    if img.width != 72 || img.height != 24 {
        Ok(resize_nearest(&img, 72, 24))
    } else {
        Ok(img)
    }
}

/// Decodes an image and brings it to `width` x `height` (nearest neighbour).
pub fn overlay_resized(source: &[u8], width: u32, height: u32) -> (r: Result<RgbaImage, String>)
    requires
        width * height * 4 <= usize::MAX,
    ensures
        match decoded_image(source@) {
            Err(e) => r matches Err(x) && x@ == e,
            Ok((w, h, px)) => r matches Ok(img) && img.width == width && img.height == height && img.wf()
                && img.pixels@ == resized_nearest(w, h, px, width, height),
        },
{
    let img = decode_image(source)?;
    Ok(resize_nearest(&img, width, height))
}

/// The number of the tile in row `row`, column `col` of the 9x3 artwork: 27
/// at the top left, counting down to 1 at the bottom right.
pub fn tile_number(row: u32, col: u32) -> (n: i32)
    requires
        row * 9 + col <= 27,
    ensures
        n == 27 - (row * 9 + col),
{
    (27 - (row * 9 + col)) as i32
}

/// The row of tile `num` in the artwork.
pub open spec fn tile_row(num: int) -> int {
    (27 - num) / 9
}

/// The column of tile `num` in the artwork.
pub open spec fn tile_col(num: int) -> int {
    (27 - num) % 9
}

/// How the 27 tiles are numbered: 27 is the top-left tile, each next lower
/// number is the tile to its right, wrapping to the left end of the next row,
/// so 1 is the bottom-right tile; every tile lies inside the 9x3 grid.
pub proof fn lemma_tile_order(num: int)
    requires
        1 <= num <= 27,
    ensures
        0 <= tile_row(num) < 3 && 0 <= tile_col(num) < 9,
        num == 27 ==> tile_row(num) == 0 && tile_col(num) == 0,
        num == 1 ==> tile_row(num) == 2 && tile_col(num) == 8,
        num > 1 && tile_col(num) < 8 ==> tile_row(num - 1) == tile_row(num) && tile_col(num - 1) == tile_col(num) + 1,
        num > 1 && tile_col(num) == 8 ==> tile_row(num - 1) == tile_row(num) + 1 && tile_col(num - 1) == 0,
{
}

proof fn lemma_tile_place(row: int, col: int)
    requires
        0 <= row < 3,
        0 <= col < 9,
    ensures
        tile_row(27 - (row * 9 + col)) == row,
        tile_col(27 - (row * 9 + col)) == col,
{
    assert((row * 9 + col) / 9 == row && (row * 9 + col) % 9 == col) by (nonlinear_arith)
        requires
            0 <= row < 3,
            0 <= col < 9,
    ;
}

/// Cuts the 72x24 artwork into its 27 tiles of 8x8, keyed by tile number.
pub fn tile_buffers(img: &RgbaImage) -> (tiles: HashMap<i32, RgbaImage>)
    requires
        img.wf(),
    ensures
        tiles@.dom() == Set::new(|k: i32| 1 <= k <= 27),
        forall|num: i32| 1 <= num <= 27 ==>
            is_block_of(#[trigger] tiles@[num], *img, tile_col(num as int) * 8, tile_row(num as int) * 8, 8, 8),
{
    broadcast use vstd::std_specs::hash::group_hash_axioms;
    let mut map: HashMap<i32, RgbaImage> = HashMap::new();
    let mut row: u32 = 0;
    while row < 3
        invariant
            img.wf(),
            row <= 3,
            map@.dom() == Set::new(|k: i32| 27 - row * 9 < k <= 27),
            forall|num: i32| 27 - row * 9 < num <= 27 ==>
                is_block_of(#[trigger] map@[num], *img, tile_col(num as int) * 8, tile_row(num as int) * 8, 8, 8),
        decreases 3 - row,
    {
        let mut col: u32 = 0;
        while col < 9
            invariant
                img.wf(),
                row < 3,
                col <= 9,
                map@.dom() == Set::new(|k: i32| 27 - (row * 9 + col) < k <= 27),
                forall|num: i32| 27 - (row * 9 + col) < num <= 27 ==>
                    is_block_of(#[trigger] map@[num], *img, tile_col(num as int) * 8, tile_row(num as int) * 8, 8, 8),
            decreases 9 - col,
        {
            let num = tile_number(row, col);
            let tile = img.crop(col * 8, row * 8, 8, 8);
            proof {
                lemma_tile_place(row as int, col as int);
            }
            map.insert(num, tile);
            assert(map@.dom() == Set::new(|k: i32| 27 - (row * 9 + col + 1) < k <= 27));
            col = col + 1;
        }
        row = row + 1;
    }
    map
}

/// The rows of the 3x7 glyph of digit `d`, top first; each row is three bits,
/// the leftmost column in the highest bit.
pub open spec fn font_glyph(d: int) -> Seq<u8> {
    if d == 0 {
        seq![0b111u8, 0b101, 0b101, 0b101, 0b101, 0b101, 0b111]
    } else if d == 1 {
        seq![0b010u8, 0b110, 0b010, 0b010, 0b010, 0b010, 0b111]
    } else if d == 2 {
        seq![0b111u8, 0b001, 0b001, 0b111, 0b100, 0b100, 0b111]
    } else if d == 3 {
        seq![0b111u8, 0b001, 0b001, 0b111, 0b001, 0b001, 0b111]
    } else if d == 4 {
        seq![0b001u8, 0b011, 0b101, 0b101, 0b111, 0b001, 0b001]
    } else if d == 5 {
        seq![0b111u8, 0b100, 0b111, 0b001, 0b001, 0b101, 0b011]
    } else if d == 6 {
        seq![0b011u8, 0b100, 0b111, 0b101, 0b101, 0b101, 0b011]
    } else if d == 7 {
        seq![0b111u8, 0b001, 0b010, 0b010, 0b100, 0b100, 0b100]
    } else if d == 8 {
        seq![0b111u8, 0b101, 0b101, 0b111, 0b101, 0b101, 0b111]
    } else {
        seq![0b111u8, 0b101, 0b101, 0b111, 0b001, 0b001, 0b111]
    }
}

fn font_rows(d: u32) -> (g: [u8; 7])
    requires
        d < 10,
    ensures
        g@ == font_glyph(d as int),
{
    let g: [u8; 7] = if d == 0 {
        [0b111, 0b101, 0b101, 0b101, 0b101, 0b101, 0b111]
    } else if d == 1 {
        [0b010, 0b110, 0b010, 0b010, 0b010, 0b010, 0b111]
    } else if d == 2 {
        [0b111, 0b001, 0b001, 0b111, 0b100, 0b100, 0b111]
    } else if d == 3 {
        [0b111, 0b001, 0b001, 0b111, 0b001, 0b001, 0b111]
    } else if d == 4 {
        [0b001, 0b011, 0b101, 0b101, 0b111, 0b001, 0b001]
    } else if d == 5 {
        [0b111, 0b100, 0b111, 0b001, 0b001, 0b101, 0b011]
    } else if d == 6 {
        [0b011, 0b100, 0b111, 0b101, 0b101, 0b101, 0b011]
    } else if d == 7 {
        [0b111, 0b001, 0b010, 0b010, 0b100, 0b100, 0b100]
    } else if d == 8 {
        [0b111, 0b101, 0b101, 0b111, 0b101, 0b101, 0b111]
    } else {
        [0b111, 0b101, 0b101, 0b111, 0b001, 0b001, 0b111]
    };
    assert(g@ == font_glyph(d as int));
    g
}

/// Whether the glyph of digit `d` is drawn at (`col`, `row`); the last row is
/// an underline, whatever the digit.
pub open spec fn glyph_on(d: int, row: int, col: int) -> bool {
    let bits: u8 = if row == 6 { 0b111u8 } else { font_glyph(d)[row] };
    (bits >> ((2 - col) as u8)) & 1u8 != 0
}

/// The digit glyphs as drawn, column 0 on the left and row 6 the underline:
/// 0 is a box; 1 a stem with a flag and a foot; 2, 3, 5 and 9 the usual bars;
/// 4 an open top with its crossbar on row 4; 6 and 7 with their slants; 8 two
/// stacked boxes.
pub open spec fn glyph_picture(d: int, r: int, c: int) -> bool {
    if d == 0 {
        c != 1 || r == 0 || r == 6
    } else if d == 1 {
        c == 1 || (r == 1 && c == 0) || r == 6
    } else if d == 2 {
        r == 0 || r == 3 || r == 6 || (c == 2 && (r == 1 || r == 2)) || (c == 0 && (r == 4 || r == 5))
    } else if d == 3 {
        r == 0 || r == 3 || r == 6 || c == 2
    } else if d == 4 {
        c == 2 || r == 4 || r == 6 || (c == 1 && r == 1) || (c == 0 && (r == 2 || r == 3))
    } else if d == 5 {
        r == 0 || r == 2 || r == 6 || (c == 0 && (r == 1 || r == 5)) || (c == 2 && (r == 3 || r == 4 || r == 5))
    } else if d == 6 {
        r == 2 || r == 6 || (r == 0 && c != 0) || (r == 1 && c == 0) || ((r == 3 || r == 4 || r == 5) && c != 1)
    } else if d == 7 {
        r == 0 || r == 6 || (r == 1 && c == 2) || ((r == 2 || r == 3) && c == 1) || ((r == 4 || r == 5) && c == 0)
    } else if d == 8 {
        c != 1 || r == 0 || r == 3 || r == 6
    } else {
        r == 0 || r == 3 || r == 6 || c == 2 || (c == 0 && (r == 1 || r == 2))
    }
}

proof fn lemma_row_bit(b: u8, s: u8)
    by (bit_vector)
    requires
        b < 8,
        s < 3,
    ensures
        ((b >> s) & 1u8 != 0) == ((s == 0 && b % 2 == 1) || (s == 1 && (b / 2) % 2 == 1) || (s == 2 && b >= 4)),
{
}

/// Every digit is drawn as its picture: for each digit, row and column of
/// the 3x7 cell, the number layer lights the pixel exactly where the glyph's
/// drawing has a stroke.
pub proof fn lemma_glyphs_match_pictures(d: int, r: int, c: int)
    requires
        0 <= d < 10,
        0 <= r < 7,
        0 <= c < 3,
    ensures
        glyph_on(d, r, c) == glyph_picture(d, r, c),
{
    let g = font_glyph(d);
    assert(g.len() == 7);
    let bits: u8 = if r == 6 { 0b111u8 } else { g[r] };
    assert(bits < 8);
    lemma_row_bit(bits, (2 - c) as u8);
}

/// The value a character of a number's decimal text stands for: its digit,
/// and 0 for the minus sign.
pub open spec fn digit_value(c: char) -> int {
    if '0' <= c <= '9' {
        c as int - 48
    } else {
        0
    }
}

/// The glyphs drawn for `num`: one per character of its decimal text.
pub open spec fn num_digits(num: int) -> Seq<int> {
    decimal_int(num).map_values(|c: char| digit_value(c))
}

/// `t / 2` rounded toward zero, as Rust divides.
pub open spec fn half_toward_zero(t: int) -> int {
    if t >= 0 {
        t / 2
    } else {
        -((-t) / 2)
    }
}

/// The left edge of the first glyph: `n` glyphs three wide with one column
/// between them, centred on the torso (x 20 to 27), rounding toward zero.
pub open spec fn digits_start_x(n: int) -> int {
    20 + half_toward_zero(8 - (n * 3 + (n - 1)))
}

/// Whether pixel (x, y) of the number layer for `num` is white: the glyphs
/// stand on row 22, four columns apart.
pub open spec fn digit_lit(num: int, x: int, y: int) -> bool {
    let ds = num_digits(num);
    let rel = x - digits_start_x(ds.len() as int);
    let row = y - 22;
    &&& 0 <= row < 7
    &&& 0 <= rel
    &&& rel / 4 < ds.len()
    &&& rel % 4 < 3
    &&& glyph_on(ds[rel / 4], row, rel % 4)
}

/// Where a skin number stands on the number layer: the glyphs are seven rows
/// tall from row 22; a one-digit number takes columns 22 to 24, a two-digit
/// number its tens at columns 20 to 22 and its units at 24 to 26; each lit
/// pixel is a stroke of its digit's picture, and nothing else is lit.
pub proof fn lemma_number_layer(num: int, x: int, y: int)
    requires
        0 <= num < 100,
    ensures
        num < 10 ==> (digit_lit(num, x, y) <==> (22 <= x < 25 && 22 <= y < 29 && glyph_picture(num, y - 22, x - 22))),
        num >= 10 ==> (digit_lit(num, x, y) <==> (22 <= y < 29 && (
            (20 <= x < 23 && glyph_picture(num / 10, y - 22, x - 20))
            || (24 <= x < 27 && glyph_picture(num % 10, y - 22, x - 24))))),
{
    let ds = num_digits(num);
    if num < 10 {
        assert(decimal_int(num) == seq![digit_char(num as nat)]);
        assert(ds =~= seq![num]);
        assert(digits_start_x(1) == 22);
        if 22 <= x < 25 && 22 <= y < 29 {
            lemma_glyphs_match_pictures(num, y - 22, x - 22);
        }
    } else {
        let t = (num / 10) as nat;
        let u = (num % 10) as nat;
        assert(decimal_nat(t) == seq![digit_char(t)]);
        assert(decimal_int(num) == seq![digit_char(t), digit_char(u)]);
        assert(ds =~= seq![num / 10, num % 10]);
        assert(digits_start_x(2) == 20);
        if 22 <= y < 29 && 20 <= x < 23 {
            lemma_glyphs_match_pictures(num / 10, y - 22, x - 20);
        }
        if 22 <= y < 29 && 24 <= x < 27 {
            lemma_glyphs_match_pictures(num % 10, y - 22, x - 24);
        }
    }
}

/// The 64x64 number layer for `num`: white where a glyph is drawn,
/// transparent elsewhere.
pub open spec fn digit_layer(num: int) -> Seq<u8> {
    Seq::new(64 * 64 * 4, |k: int| if digit_lit(num, (k / 4) % 64, (k / 4) / 64) { 255u8 } else { 0u8 })
}

/// Every byte of a buffer `w` pixels wide is a channel of some pixel.
pub proof fn lemma_chan_decompose(w: int, k: int)
    requires
        0 < w,
        0 <= k,
    ensures
        k == chan_index(w, (k / 4) % w, (k / 4) / w, k % 4),
        0 <= (k / 4) % w < w,
        0 <= (k / 4) / w,
        0 <= k % 4 < 4,
{
    let p = k / 4;
    assert(k == p * 4 + k % 4 && 0 <= k % 4 < 4 && 0 <= p) by (nonlinear_arith)
        requires
            0 <= k,
            p == k / 4,
    ;
    assert(p == (p / w) * w + p % w && 0 <= p % w < w && 0 <= p / w) by (nonlinear_arith)
        requires
            0 < w,
            0 <= p,
    ;
}

/// Whether glyph `d`, drawn with its left edge at `ox`, covers pixel (a, b).
pub open spec fn glyph_cell(ox: int, d: int, a: int, b: int) -> bool {
    0 <= a - ox < 3 && 0 <= b - 22 < 7 && glyph_on(d, b - 22, a - ox)
}

/// Draws the glyph of digit `d` in white with its left edge at `ox`.
fn draw_glyph(img: &mut RgbaImage, ox: i32, d: u32)
    requires
        old(img).wf(),
        old(img).width == 64,
        old(img).height == 64,
        d < 10,
    ensures
        final(img).width == 64,
        final(img).height == 64,
        final(img).wf(),
        forall|a: int, b: int, c: int| 0 <= a < 64 && 0 <= b < 64 && 0 <= c < 4 ==>
            #[trigger] final(img).chan(a, b, c) == if glyph_cell(ox as int, d as int, a, b) { 255u8 } else { old(img).chan(a, b, c) },
{
    let glyph = font_rows(d);
    let mut row: u8 = 0;
    while row < 7
        invariant
            img.wf(),
            img.width == 64,
            img.height == 64,
            d < 10,
            glyph@ == font_glyph(d as int),
            row <= 7,
            forall|a: int, b: int, c: int| 0 <= a < 64 && 0 <= b < 64 && 0 <= c < 4 ==>
                #[trigger] img.chan(a, b, c) == if glyph_cell(ox as int, d as int, a, b) && b - 22 < row { 255u8 } else { old(img).chan(a, b, c) },
        decreases 7 - row,
    {
        let bits: u8 = if row == 6 { 0b111 } else { glyph[row as usize] };
        let mut col: u8 = 0;
        while col < 3
            invariant
                img.wf(),
                img.width == 64,
                img.height == 64,
                d < 10,
                glyph@ == font_glyph(d as int),
                row < 7,
                col <= 3,
                bits == if row == 6 { 0b111u8 } else { font_glyph(d as int)[row as int] },
                forall|a: int, b: int, c: int| 0 <= a < 64 && 0 <= b < 64 && 0 <= c < 4 ==>
                    #[trigger] img.chan(a, b, c) == if glyph_cell(ox as int, d as int, a, b) && (b - 22 < row || (b - 22 == row && a - ox < col)) { 255u8 } else { old(img).chan(a, b, c) },
            decreases 3 - col,
        {
            let bit: u8 = (bits >> (2 - col)) & 1;
            let px: i64 = ox as i64 + col as i64;
            let py: i64 = 22 + row as i64;
            if bit != 0 && px >= 0 && py >= 0 && px < 64 && py < 64 {
                img.put_pixel(px as u32, py as u32, [255, 255, 255, 255]);
            }
            proof {
                assert(bit != 0 <==> glyph_on(d as int, row as int, col as int));
            }
            col = col + 1;
        }
        row = row + 1;
    }
}

/// The decimal text of a number is at most eleven characters long.
proof fn lemma_decimal_i32_len(num: int)
    requires
        -2147483648 <= num <= 2147483647,
    ensures
        1 <= decimal_int(num).len() <= 11,
{
    let m: nat = if num < 0 { (-num) as nat } else { num as nat };
    lemma_decimal_nat_len(m, 10);
}

/// 10 to the power `k`.
pub open spec fn pow10(k: nat) -> nat
    decreases k,
{
    if k == 0 {
        1
    } else {
        10 * pow10((k - 1) as nat)
    }
}

proof fn lemma_decimal_nat_len(n: nat, k: nat)
    requires
        k >= 1,
        n < pow10(k) || (k == 10 && n <= 2147483648),
    ensures
        1 <= decimal_nat(n).len() <= k,
    decreases k,
{
    if k == 10 {
        reveal_with_fuel(pow10, 11);
        assert(pow10(10) == 10000000000nat);
    }
    if n >= 10 {
        if k == 1 {
            assert(pow10(1) == 10 * pow10(0));
            assert(false);
        }
        assert(pow10(k) == 10 * pow10((k - 1) as nat));
        assert(n / 10 < pow10((k - 1) as nat)) by (nonlinear_arith)
            requires
                n < 10 * pow10((k - 1) as nat),
        ;
        lemma_decimal_nat_len(n / 10, (k - 1) as nat);
    }
}

/// Pixel (a, b) is covered by one of the first `k` glyphs of the number
/// whose glyphs are `ds`, the first with its left edge at `sx`.
pub open spec fn lit_upto(ds: Seq<int>, sx: int, k: int, a: int, b: int) -> bool {
    let rel = a - sx;
    &&& 0 <= b - 22 < 7
    &&& 0 <= rel
    &&& rel / 4 < k
    &&& rel % 4 < 3
    &&& glyph_on(ds[rel / 4], b - 22, rel % 4)
}

proof fn lemma_glyph_slot(rel: int, k: int)
    requires
        0 <= k,
    ensures
        (4 * k <= rel < 4 * k + 3) <==> (0 <= rel && rel / 4 == k && rel % 4 < 3),
        4 * k <= rel < 4 * k + 3 ==> rel % 4 == rel - 4 * k,
        0 <= rel && rel / 4 < k + 1 && !(rel / 4 == k) ==> rel / 4 < k,
{
    if 4 * k <= rel < 4 * k + 3 {
        assert(rel / 4 == k && rel % 4 == rel - 4 * k) by (nonlinear_arith)
            requires
                4 * k <= rel < 4 * k + 3,
        ;
    }
    if 0 <= rel && rel / 4 == k && rel % 4 < 3 {
        assert(4 * k <= rel < 4 * k + 3) by (nonlinear_arith)
            requires
                0 <= rel,
                rel / 4 == k,
                rel % 4 < 3,
        ;
    }
}

/// The number layer for `num` as a 64x64 image: the decimal text of `num`
/// in 3x7 white glyphs, underlined, centred on the torso at row 22, on a
/// transparent background.
pub fn digit_overlay(num: i32) -> (img: RgbaImage)
    ensures
        img.width == 64,
        img.height == 64,
        img.wf(),
        img.pixels@ == digit_layer(num as int),
{
    let mut img = RgbaImage::new_filled(64, 64, [0, 0, 0, 0]);
    let text = with_decimal("", num as i64);
    let cs = str_chars(text.as_str());
    proof {
        reveal_strlit("");
        assert(cs@ == decimal_int(num as int));
        lemma_decimal_i32_len(num as int);
    }
    let ghost ds = num_digits(num as int);
    let mut digits: Vec<u32> = Vec::new();
    let mut i: usize = 0;
    while i < cs.len()
        invariant
            cs@ == decimal_int(num as int),
            ds == num_digits(num as int),
            i <= cs@.len(),
            digits@.len() == i,
            forall|j: int| 0 <= j < i ==> #[trigger] digits@[j] as int == ds[j] && digits@[j] < 10,
        decreases cs@.len() - i,
    {
        let c = cs[i];
        let v: u32 = if c >= '0' && c <= '9' { (c as u32) - 48 } else { 0 };
        digits.push(v);
        i = i + 1;
    }
    let n: i32 = digits.len() as i32;
    let total_w: i32 = n * 3 + (n - 1);
    let t: i32 = 8 - total_w;
    let half: i32 = if t >= 0 { t / 2 } else { -((-t) / 2) };
    let start_x: i32 = 20 + half;
    proof {
        assert(start_x == digits_start_x(ds.len() as int));
        assert(3 <= start_x <= 23);
        assert forall|a: int, b: int, c: int| 0 <= a < 64 && 0 <= b < 64 && 0 <= c < 4 implies
            #[trigger] img.chan(a, b, c) == if lit_upto(ds, start_x as int, 0, a, b) { 255u8 } else { 0u8 } by {
            assert(img.pixel_is(a, b, [0u8, 0u8, 0u8, 0u8]@));
            assert(img.chan(a, b, c) == [0u8, 0u8, 0u8, 0u8]@[c]);
        }
    }
    let mut k: usize = 0;
    while k < digits.len()
        invariant
            img.wf(),
            img.width == 64,
            img.height == 64,
            1 <= digits@.len() <= 11,
            digits@.len() == ds.len(),
            forall|j: int| 0 <= j < ds.len() ==> #[trigger] digits@[j] as int == ds[j] && digits@[j] < 10,
            3 <= start_x <= 23,
            k <= digits@.len(),
            forall|a: int, b: int, c: int| 0 <= a < 64 && 0 <= b < 64 && 0 <= c < 4 ==>
                #[trigger] img.chan(a, b, c) == if lit_upto(ds, start_x as int, k as int, a, b) { 255u8 } else { 0u8 },
        decreases digits@.len() - k,
    {
        let ox: i32 = start_x + (k as i32) * 4;
        let ghost before = img;
        draw_glyph(&mut img, ox, digits[k]);
        proof {
            assert forall|a: int, b: int, c: int| 0 <= a < 64 && 0 <= b < 64 && 0 <= c < 4 implies
                #[trigger] img.chan(a, b, c) == if lit_upto(ds, start_x as int, k + 1, a, b) { 255u8 } else { 0u8 } by {
                let rel = a - start_x;
                lemma_glyph_slot(rel, k as int);
                assert(before.chan(a, b, c) == if lit_upto(ds, start_x as int, k as int, a, b) { 255u8 } else { 0u8 });
            }
        }
        k = k + 1;
    }
    proof {
        assert forall|q: int| 0 <= q < 64 * 64 * 4 implies #[trigger] img.pixels@[q] == digit_layer(num as int)[q] by {
            lemma_chan_decompose(64, q);
            let a = (q / 4) % 64;
            let b = (q / 4) / 64;
            let c = q % 4;
            assert(b < 64) by (nonlinear_arith)
                requires
                    b == (q / 4) / 64,
                    0 <= q < 64 * 64 * 4,
            ;
            assert(img.chan(a, b, c) == img.pixels@[q]);
            assert(lit_upto(ds, start_x as int, ds.len() as int, a, b) == digit_lit(num as int, a, b));
        }
    }
    img
}

/// Pixel (x, y) lies in the 8x8 block with top-left corner (left, top).
pub open spec fn in_block(left: int, top: int, x: int, y: int) -> bool {
    left <= x < left + 8 && top <= y < top + 8
}

/// The regions of a skin that the art tile draws again: the two 8x8 blocks
/// at (40, 0) and (40, 8), and the one at (8, 32).
pub open spec fn face_cleared(x: int, y: int) -> bool {
    in_block(40, 0, x, y) || in_block(40, 8, x, y) || in_block(8, 32, x, y)
}

/// The cleared regions are the 8x16 strip at x 40 to 47, y 0 to 15, and the
/// 8x8 square at x 8 to 15, y 32 to 39; the rest of the skin is kept.
pub proof fn lemma_face_regions(x: int, y: int)
    ensures
        face_cleared(x, y) <==> ((40 <= x < 48 && 0 <= y < 16) || (8 <= x < 16 && 32 <= y < 40)),
{
}

/// A 64x64 buffer with those regions made transparent.
pub open spec fn clear_face(px: Seq<u8>) -> Seq<u8> {
    Seq::new(px.len(), |k: int| if face_cleared((k / 4) % 64, (k / 4) / 64) { 0u8 } else { px[k] })
}

/// Makes the 8x8 block at (left, top) transparent.
fn clear_block(img: &mut RgbaImage, left: u32, top: u32)
    requires
        old(img).wf(),
        left + 8 <= old(img).width,
        top + 8 <= old(img).height,
    ensures
        final(img).width == old(img).width,
        final(img).height == old(img).height,
        final(img).wf(),
        forall|a: int, b: int, c: int| 0 <= a < old(img).width && 0 <= b < old(img).height && 0 <= c < 4 ==>
            #[trigger] final(img).chan(a, b, c) == if in_block(left as int, top as int, a, b) { 0u8 } else { old(img).chan(a, b, c) },
{
    let mut y: u32 = 0;
    while y < 8
        invariant
            img.wf(),
            img.width == old(img).width,
            img.height == old(img).height,
            left + 8 <= img.width,
            top + 8 <= img.height,
            y <= 8,
            forall|a: int, b: int, c: int| 0 <= a < img.width && 0 <= b < img.height && 0 <= c < 4 ==>
                #[trigger] img.chan(a, b, c) == if in_block(left as int, top as int, a, b) && b < top + y { 0u8 } else { old(img).chan(a, b, c) },
        decreases 8 - y,
    {
        let mut x: u32 = 0;
        while x < 8
            invariant
                img.wf(),
                img.width == old(img).width,
                img.height == old(img).height,
                left + 8 <= img.width,
                top + 8 <= img.height,
                y < 8,
                x <= 8,
                forall|a: int, b: int, c: int| 0 <= a < img.width && 0 <= b < img.height && 0 <= c < 4 ==>
                    #[trigger] img.chan(a, b, c) == if in_block(left as int, top as int, a, b) && (b < top + y || (b == top + y && a < left + x)) { 0u8 } else { old(img).chan(a, b, c) },
            decreases 8 - x,
        {
            img.put_pixel(left + x, top + y, [0, 0, 0, 0]);
            x = x + 1;
        }
        y = y + 1;
    }
}

/// The layers of a generated skin, bottom first: the base skin with the
/// face regions cleared, the art tile at (8, 8), the number layer when
/// numbers are shown, and the watermark on top.
pub open spec fn skin_layers(num: int, tile: RgbaImage, base: Seq<u8>, msa: Seq<u8>, show_numbers: bool) -> Seq<u8> {
    let b1 = clear_face(base);
    let b2 = overlaid(64, 64, b1, tile.width, tile.height, tile.pixels@, 8, 8);
    let b3 = if show_numbers { overlaid(64, 64, b2, 64, 64, digit_layer(num), 0, 0) } else { b2 };
    overlaid(64, 64, b3, 64, 64, msa, 0, 0)
}

/// The PNG of skin `num`, or the error that stopped it: decoding the base
/// skin, then decoding the watermark, then encoding.
pub open spec fn generated_skin(num: int, tile: RgbaImage, base_bytes: Seq<u8>, watermark: Seq<u8>, show_numbers: bool) -> Result<Seq<u8>, Seq<char>> {
    match decoded_image(base_bytes) {
        Err(e) => Err(e),
        Ok((w, h, px)) => match decoded_image(watermark) {
            Err(e) => Err(e),
            Ok((mw, mh, mpx)) => png_of(
                64,
                64,
                skin_layers(num, tile, resized_nearest(w, h, px, 64, 64), resized_nearest(mw, mh, mpx, 64, 64), show_numbers),
            ),
        },
    }
}

/// Builds skin `num` from its art tile: the chosen base skin (the bundled
/// template when there is none), the face regions cleared, the tile laid on
/// the face, the number drawn when asked, and the watermark on top; encoded
/// as PNG.
pub fn generate_skin(
    num: i32,
    tile: &RgbaImage,
    base_skin: Option<&[u8]>,
    template: &[u8],
    watermark: &[u8],
    show_numbers: bool,
) -> (r: Result<Vec<u8>, String>)
    requires
        tile.wf(),
    ensures
        match generated_skin(
            num as int,
            *tile,
            match base_skin { Some(b) => b@, None => template@ },
            watermark@,
            show_numbers,
        ) {
            Ok(v) => r matches Ok(x) && x@ == v,
            Err(e) => r matches Err(x) && x@ == e,
        },
{
    let mut base = match base_skin {
        Some(bytes) => overlay_resized(bytes, 64, 64)?,
        None => overlay_resized(template, 64, 64)?,
    };
    let ghost b0 = base.pixels@;
    clear_block(&mut base, 40, 0);
    clear_block(&mut base, 40, 8);
    clear_block(&mut base, 8, 32);
    proof {
        assert forall|q: int| 0 <= q < 64 * 64 * 4 implies #[trigger] base.pixels@[q] == clear_face(b0)[q] by {
            lemma_chan_decompose(64, q);
            let a = (q / 4) % 64;
            let b = (q / 4) / 64;
            assert(b < 64) by (nonlinear_arith)
                requires
                    b == (q / 4) / 64,
                    0 <= q < 64 * 64 * 4,
            ;
            assert(base.chan(a, b, q % 4) == base.pixels@[q]);
        }
        assert(base.pixels@ == clear_face(b0));
    }
    overlay(&mut base, tile, 8, 8);
    if show_numbers {
        let digits = digit_overlay(num);
        overlay(&mut base, &digits, 0, 0);
    }
    let msa = overlay_resized(watermark, 64, 64)?;
    overlay(&mut base, &msa, 0, 0);
    encode_png(&base)
}

/// What the interface asks to generate: the artwork, an optional base skin
/// and whether to draw the numbers.
pub struct GenerateAllOptions {
    pub input_path: String,
    pub base_skin_path: Option<String>,
    pub show_numbers: Option<bool>,
}

/// One generated skin file.
pub struct GeneratedSkin {
    pub num: i32,
    pub path: String,
}

/// Where the generated skins went.
pub struct GenerateAllResult {
    pub output_dir: String,
    pub skins: Vec<GeneratedSkin>,
}

/// Numbers are drawn unless the options turn them off.
pub fn shows_numbers(opts: &GenerateAllOptions) -> (b: bool)
    ensures
        b == match opts.show_numbers {
            Some(x) => x,
            None => true,
        },
{
    match opts.show_numbers {
        Some(x) => x,
        None => true,
    }
}

/// The file a generated skin is written to ("skin_7.png").
pub fn skin_file_name(num: i32) -> (r: String)
    ensures
        r@ == "skin_"@ + decimal_int(num as int) + ".png"@,
{
    let mut r = with_decimal("skin_", num as i64);
    r.append(".png");
    r
}

/// The folder a generation run writes to, named after the time in
/// milliseconds.
pub fn output_dir_name(millis: u128) -> (r: String)
    ensures
        r@ == "skinartplus_"@ + decimal_nat(millis as nat),
{
    let mut r = String::from_str("skinartplus_");
    crate::text::push_decimal_u128(&mut r, millis);
    r
}

/// The error for a tile that the artwork does not have.
pub fn missing_tile_msg(num: i32) -> (r: String)
    ensures
        r@ == "missing tile "@ + decimal_int(num as int),
{
    with_decimal("missing tile ", num as i64)
}

} // verus!
