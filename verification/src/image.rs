//! An RGBA image with 8 bits per channel, stored row by row.
use vstd::prelude::*;

verus! {

/// One pixel: red, green, blue, alpha.
pub type Pixel = [u8; 4];

/// Mathematical model of an [`Image`]: its size and its pixels, `pixels[y][x]`.
#[verifier::ext_equal]
pub struct ImageSpec {
    pub width: nat,
    pub height: nat,
    pub pixels: Seq<Seq<Pixel>>,
}

/// The fully transparent pixel.
pub open spec fn clear() -> Pixel {
    [0u8, 0u8, 0u8, 0u8]
}

/// A `w` × `h` image filled with `p`.
pub open spec fn filled(w: nat, h: nat, p: Pixel) -> ImageSpec {
    ImageSpec { width: w, height: h, pixels: Seq::new(h, |y: int| Seq::new(w, |x: int| p)) }
}

/// The pixel at `(x, y)` of `s`.
pub open spec fn pixel(s: ImageSpec, x: int, y: int) -> Pixel {
    s.pixels[y][x]
}

/// Pixel `(x, y)` is not fully transparent.
pub open spec fn opaque_at(s: ImageSpec, x: int, y: int) -> bool {
    pixel(s, x, y)[3] > 0
}

/// Row `y` holds a pixel that is not fully transparent.
pub open spec fn row_has_content(s: ImageSpec, y: int) -> bool {
    exists|x: int| 0 <= x < s.width && #[trigger] opaque_at(s, x, y)
}

/// `s` with pixel `(x, y)` set to `p`.
pub open spec fn with_pixel(s: ImageSpec, x: int, y: int, p: Pixel) -> ImageSpec {
    ImageSpec { pixels: s.pixels.update(y, s.pixels[y].update(x, p)), ..s }
}

/// Every row holds `width` pixels and there are `height` rows.
pub open spec fn shaped(s: ImageSpec) -> bool {
    &&& s.pixels.len() == s.height
    &&& forall|y: int| 0 <= y < s.height ==> #[trigger] s.pixels[y].len() == s.width
}

/// The size of a pixel buffer for `w` × `h` pixels.
pub open spec fn buffer_len(w: nat, h: nat) -> nat {
    w * h * 4
}

/// An image whose pixels are held as bytes, four per pixel, row after row.
#[derive(Debug)]
pub struct Image {
    width: u32,
    height: u32,
    data: Vec<u8>,
}

closed spec fn pixel_at(data: Seq<u8>, w: nat, x: int, y: int) -> Pixel {
    let i = (y * w + x) * 4;
    [data[i], data[i + 1], data[i + 2], data[i + 3]]
}

impl View for Image {
    type V = ImageSpec;

    closed spec fn view(&self) -> ImageSpec {
        ImageSpec {
            width: self.width as nat,
            height: self.height as nat,
            pixels: Seq::new(
                self.height as nat,
                |y: int| Seq::new(self.width as nat, |x: int| pixel_at(self.data@, self.width as nat, x, y)),
            ),
        }
    }
}

proof fn lemma_index(w: nat, h: nat, x: int, y: int)
    requires
        0 <= x < w,
        0 <= y < h,
    ensures
        0 <= (y * w + x) * 4,
        (y * w + x) * 4 + 4 <= w * h * 4,
{
    assert((y * w + x) * 4 + 4 <= w * h * 4) by (nonlinear_arith)
        requires
            0 <= x < w,
            0 <= y < h,
    ;
    assert(0 <= (y * w + x) * 4) by (nonlinear_arith)
        requires
            0 <= x < w,
            0 <= y < h,
    ;
}

proof fn lemma_index_distinct(w: nat, x1: int, y1: int, x2: int, y2: int)
    requires
        0 <= x1 < w,
        0 <= x2 < w,
        0 <= y1,
        0 <= y2,
        x1 != x2 || y1 != y2,
    ensures
        (y1 * w + x1) * 4 + 4 <= (y2 * w + x2) * 4 || (y2 * w + x2) * 4 + 4 <= (y1 * w + x1) * 4,
{
    if y1 == y2 {
        assert(y1 * w == y2 * w);
    } else if y1 < y2 {
        assert(y1 * w + w <= y2 * w) by (nonlinear_arith)
            requires
                y1 < y2,
                0 <= y1,
        ;
    } else {
        assert(y2 * w + w <= y1 * w) by (nonlinear_arith)
            requires
                y2 < y1,
                0 <= y2,
        ;
    }
}

/// The model of an image is always well shaped.
pub broadcast proof fn lemma_image_shaped(img: &Image)
    ensures
        shaped(#[trigger] img@),
{
}

impl Image {
    #[verifier::type_invariant]
    spec fn inv(self) -> bool {
        self.data@.len() == buffer_len(self.width as nat, self.height as nat)
    }

    /// A fully transparent `width` × `height` image.
    pub fn new(width: u32, height: u32) -> (img: Image)
        requires
            buffer_len(width as nat, height as nat) <= usize::MAX,
        ensures
            img@ == filled(width as nat, height as nat, clear()),
    {
        Image::from_pixel(width, height, [0u8, 0u8, 0u8, 0u8])
    }

    /// A `width` × `height` image filled with `p`.
    pub fn from_pixel(width: u32, height: u32, p: Pixel) -> (img: Image)
        requires
            buffer_len(width as nat, height as nat) <= usize::MAX,
        ensures
            img@ == filled(width as nat, height as nat, p),
    {
        let n: usize = (width as usize) * (height as usize) * 4;
        let mut data: Vec<u8> = Vec::new();
        let mut i: usize = 0;
        while i < n
            invariant
                i <= n,
                n == buffer_len(width as nat, height as nat),
                data@.len() == i,
                forall|k: int| 0 <= k < i ==> #[trigger] data@[k] == p[k % 4],
            decreases n - i,
        {
            data.push(p[i % 4]);
            i += 1;
        }
        let img = Image { width, height, data };
        assert(img@ =~= filled(width as nat, height as nat, p)) by {
            assert forall|y: int| 0 <= y < height implies #[trigger] img@.pixels[y] =~= filled(
                width as nat,
                height as nat,
                p,
            ).pixels[y] by {
                assert forall|x: int| 0 <= x < width implies #[trigger] img@.pixels[y][x] == p by {
                    lemma_index(width as nat, height as nat, x, y);
                    let b = (y * width + x) * 4;
                    assert(b % 4 == 0 && (b + 1) % 4 == 1 && (b + 2) % 4 == 2 && (b + 3) % 4 == 3);
                    assert(pixel_at(data@, width as nat, x, y) =~= p);
                }
            }
        }
        img
    }

    /// The image from raw RGBA bytes, if their number fits the size.
    pub fn from_raw(width: u32, height: u32, data: Vec<u8>) -> (r: Option<Image>)
        ensures
            r is Some <==> data@.len() == buffer_len(width as nat, height as nat),
            r matches Some(img) ==> img@.width == width && img@.height == height && img.raw() == data@,
    {
        assert((width as nat) * (height as nat) <= 0xffff_ffffnat * 0xffff_ffffnat) by (nonlinear_arith)
            requires
                width <= 0xffff_ffffnat,
                height <= 0xffff_ffffnat,
        ;
        let n: u64 = (width as u64) * (height as u64);
        let len = data.len();
        if n <= (usize::MAX as u64) / 4 && len == (n as usize) * 4 {
            Some(Image { width, height, data })
        } else {
            assert(data@.len() != buffer_len(width as nat, height as nat));
            None
        }
    }

    /// The raw RGBA bytes.
    pub closed spec fn raw(self) -> Seq<u8> {
        self.data@
    }

    /// The width in pixels.
    pub fn width(&self) -> (w: u32)
        ensures
            w == self@.width,
    {
        self.width
    }

    /// The height in pixels.
    pub fn height(&self) -> (h: u32)
        ensures
            h == self@.height,
    {
        self.height
    }

    /// The number of raw bytes, four per pixel.
    pub fn raw_len(&self) -> (n: usize)
        ensures
            n == buffer_len(self@.width, self@.height),
    {
        proof {
            use_type_invariant(self);
        }
        self.data.len()
    }

    /// `(width, height)`.
    pub fn dimensions(&self) -> (d: (u32, u32))
        ensures
            d.0 == self@.width,
            d.1 == self@.height,
    {
        (self.width, self.height)
    }

    /// The raw RGBA bytes, row after row.
    pub fn into_raw(self) -> (data: Vec<u8>)
        ensures
            data@ == self.raw(),
            data@.len() == buffer_len(self@.width, self@.height),
    {
        proof {
            use_type_invariant(&self);
        }
        self.data
    }

    /// The pixel at `(x, y)`.
    pub fn get_pixel(&self, x: u32, y: u32) -> (p: Pixel)
        requires
            x < self@.width,
            y < self@.height,
        ensures
            p == pixel(self@, x as int, y as int),
    {
        proof {
            use_type_invariant(self);
            lemma_index(self.width as nat, self.height as nat, x as int, y as int);
        }
        let _n = self.data.len();
        let i: usize = ((y as usize) * (self.width as usize) + (x as usize)) * 4;
        let p = [self.data[i], self.data[i + 1], self.data[i + 2], self.data[i + 3]];
        assert(p =~= pixel_at(self.data@, self.width as nat, x as int, y as int));
        p
    }

    /// The alpha value of pixel `(x, y)`.
    pub fn alpha(&self, x: u32, y: u32) -> (a: u8)
        requires
            x < self@.width,
            y < self@.height,
        ensures
            a == pixel(self@, x as int, y as int)[3],
    {
        proof {
            use_type_invariant(self);
            lemma_index(self.width as nat, self.height as nat, x as int, y as int);
        }
        let _n = self.data.len();
        let i: usize = ((y as usize) * (self.width as usize) + (x as usize)) * 4;
        self.data[i + 3]
    }

    /// Sets pixel `(x, y)` to `p`.
    pub fn put_pixel(&mut self, x: u32, y: u32, p: Pixel)
        requires
            x < old(self)@.width,
            y < old(self)@.height,
        ensures
            final(self)@ == with_pixel(old(self)@, x as int, y as int, p),
    {
        proof {
            use_type_invariant(&*self);
            lemma_index(self.width as nat, self.height as nat, x as int, y as int);
        }
        let ghost old_data = self.data@;
        let w = self.width;
        let h = self.height;
        let _n = self.data.len();
        let i: usize = ((y as usize) * (w as usize) + (x as usize)) * 4;
        let mut taken = Image { width: 0, height: 0, data: Vec::new() };
        std::mem::swap(self, &mut taken);
        let Image { width: _, height: _, data: mut data } = taken;
        data.set(i, p[0]);
        data.set(i + 1, p[1]);
        data.set(i + 2, p[2]);
        data.set(i + 3, p[3]);
        *self = Image { width: w, height: h, data };
        let ghost nd = self.data@;
        assert(self@ =~= with_pixel(old(self)@, x as int, y as int, p)) by {
            assert forall|yy: int| 0 <= yy < h implies #[trigger] self@.pixels[yy] =~= with_pixel(
                old(self)@,
                x as int,
                y as int,
                p,
            ).pixels[yy] by {
                assert forall|xx: int| 0 <= xx < w implies #[trigger] self@.pixels[yy][xx] == with_pixel(
                    old(self)@,
                    x as int,
                    y as int,
                    p,
                ).pixels[yy][xx] by {
                    lemma_index(w as nat, h as nat, xx, yy);
                    if xx == x && yy == y {
                        assert(pixel_at(nd, w as nat, xx, yy) =~= p);
                    } else {
                        lemma_index_distinct(w as nat, xx, yy, x as int, y as int);
                        assert(pixel_at(nd, w as nat, xx, yy) =~= pixel_at(old_data, w as nat, xx, yy));
                    }
                }
            }
        }
    }
}

/// `s` with row `y` replaced by `row`.
pub open spec fn with_row(s: ImageSpec, y: int, row: Seq<Pixel>) -> ImageSpec {
    ImageSpec { pixels: s.pixels.update(y, row), ..s }
}

impl Image {
    /// Copies row `sy` of `src` into row `y` of this image (same width).
    pub fn copy_row(&mut self, y: u32, src: &Image, sy: u32)
        requires
            old(self)@.width == src@.width,
            y < old(self)@.height,
            sy < src@.height,
        ensures
            final(self)@ == with_row(old(self)@, y as int, src@.pixels[sy as int]),
    {
        let w = self.width();
        let ghost o = self@;
        let ghost row = src@.pixels[sy as int];
        proof {
            lemma_image_shaped(self);
            lemma_image_shaped(src);
        }
        let mut x: u32 = 0;
        assert(row.take(0) + o.pixels[y as int].skip(0) =~= o.pixels[y as int]);
        assert(with_row(o, y as int, o.pixels[y as int]) =~= o);
        while x < w
            invariant
                w == o.width,
                src@.width == o.width,
                y < o.height,
                sy < src@.height,
                row == src@.pixels[sy as int],
                shaped(o),
                shaped(src@),
                x <= w,
                self@ == with_row(o, y as int, row.take(x as int) + o.pixels[y as int].skip(x as int)),
            decreases w - x,
        {
            let p = src.get_pixel(x, sy);
            proof {
                lemma_image_shaped(self);
            }
            self.put_pixel(x, y, p);
            assert(row.take(x + 1) + o.pixels[y as int].skip(x + 1) =~= (row.take(x as int) + o.pixels[y as int].skip(x as int)).update(x as int, p));
            x += 1;
        }
        assert(row.take(w as int) + o.pixels[y as int].skip(w as int) =~= row);
    }
}

/// Resizes `img` to `width` × `height` with `image::imageops::resize` and
/// `FilterType::Lanczos3`.
///
/// Trusted: the result has the requested size; as the crate's source shows, an image of
/// that same size comes back unchanged, and an empty one gives a transparent result.
/// The resampled pixels are left unsaid: the filter's weights come from `f32::sin`, whose
/// precision std leaves to the platform, so the same input need not give the same pixels
/// everywhere. `requires` keeps the output buffer, and the intermediate one of `img`'s
/// width and the new height, within `usize`, as `ImageBuffer::new` needs.
#[verifier::external_body]
pub(crate) fn resize_lanczos3(img: &Image, width: u32, height: u32) -> (r: Image)
    requires
        buffer_len(width as nat, height as nat) <= usize::MAX,
        buffer_len(img@.width, height as nat) <= usize::MAX,
    ensures
        r@.width == width,
        r@.height == height,
        img@.width == width && img@.height == height ==> r@ == img@,
        img@.width == 0 || img@.height == 0 ==> r@ == filled(width as nat, height as nat, clear()),
{
    let src = image::RgbaImage::from_raw(img.width, img.height, img.data.clone()).unwrap();
    let out = image::imageops::resize(&src, width, height, image::imageops::FilterType::Lanczos3);
    Image { width: out.width(), height: out.height(), data: out.into_raw() }
}

impl Image {
    /// Decodes an encoded image file's bytes (PNG, JPEG) to RGBA: the image, or the text
    /// of the decoder's error.
    pub fn decode(bytes: &[u8]) -> (r: Result<Image, String>)
        ensures
            match r {
                Ok(img) => image_decoded(bytes@) == Ok::<ImageSpec, Seq<char>>(img@),
                Err(e) => image_decoded(bytes@) == Err::<ImageSpec, Seq<char>>(e@),
            },
    {
        decode_image(bytes)
    }
}

/// Whether a `w` × `h` pixel buffer fits in memory addresses.
pub fn fits_buffer(w: u32, h: u32) -> (b: bool)
    ensures
        b == (buffer_len(w as nat, h as nat) <= usize::MAX),
{
    assert((w as nat) * (h as nat) * 4 <= 0xffff_ffffnat * 0xffff_ffffnat * 4) by (nonlinear_arith)
        requires
            w <= 0xffff_ffffnat,
            h <= 0xffff_ffffnat,
    ;
    (w as u128) * (h as u128) * 4 <= (usize::MAX as u128)
}

/// The image that `image::load_from_memory` decodes from `bytes` (as RGBA 8-bit), or the
/// text of its error.
pub uninterp spec fn image_decoded(bytes: Seq<u8>) -> Result<ImageSpec, Seq<char>>;

/// Decodes an encoded image (`image::load_from_memory`, then `to_rgba8`).
///
/// Trusted: the result, or the error's text, is named `image_decoded(bytes)`; which
/// formats are recognized and how they decode is left to the `image` crate.
#[verifier::external_body]
pub(crate) fn decode_image(bytes: &[u8]) -> (r: Result<Image, String>)
    ensures
        match r {
            Ok(img) => image_decoded(bytes@) == Ok::<ImageSpec, Seq<char>>(img@),
            Err(e) => image_decoded(bytes@) == Err::<ImageSpec, Seq<char>>(e@),
        },
{
    match image::load_from_memory(bytes) {
        Ok(d) => {
            let rgba = d.to_rgba8();
            Ok(Image { width: rgba.width(), height: rgba.height(), data: rgba.into_raw() })
        },
        Err(e) => Err(e.to_string()),
    }
}

impl Clone for Image {
    fn clone(&self) -> (r: Self)
        ensures
            r@ == self@,
    {
        proof {
            use_type_invariant(self);
        }
        let mut data: Vec<u8> = Vec::new();
        let mut i: usize = 0;
        while i < self.data.len()
            invariant
                i <= self.data@.len(),
                data@ == self.data@.take(i as int),
            decreases self.data@.len() - i,
        {
            data.push(self.data[i]);
            assert(self.data@.take(i + 1) == self.data@.take(i as int).push(self.data@[i as int]));
            i += 1;
        }
        assert(self.data@.take(self.data@.len() as int) == self.data@);
        let r = Image { width: self.width, height: self.height, data };
        assert(r@ =~= self@);
        r
    }
}

} // verus!
