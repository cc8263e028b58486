use vstd::prelude::*;

use image::{ImageBuffer, Rgba, RgbaImage};

verus! {

/// An RGBA image held in an `image::RgbaImage`, the buffer that images are drawn in,
/// decoded into and encoded from.
#[verifier::external_body]
pub struct Canvas {
    img: RgbaImage,
}

/// The raw RGBA bytes of a canvas, row-major, four per pixel.
pub uninterp spec fn canvas_bytes(c: Canvas) -> Seq<u8>;

/// The width and height of a canvas.
pub uninterp spec fn canvas_size(c: Canvas) -> (u32, u32);

/// What `image` writes as a PNG file for an RGBA raster: the file bytes, or the text of
/// the encoder's error.
pub uninterp spec fn png_encoding(width: u32, height: u32, rgba: Seq<u8>) -> Result<Seq<u8>, Seq<char>>;

/// What `image` decodes from a file: width, height and RGBA bytes of the image, or the
/// text of the decoder's error.
pub uninterp spec fn image_decoding(data: Seq<u8>) -> Result<(u32, u32, Seq<u8>), Seq<char>>;

/// Bytes that begin with the eight-byte PNG signature.
pub open spec fn is_png_file(b: Seq<u8>) -> bool {
    b.len() >= 8 && b.take(8) == seq![137u8, 80u8, 78u8, 71u8, 13u8, 10u8, 26u8, 10u8]
}

/// Image sizes that the PNG encoder is claimed to accept: both sides nonzero and at most
/// 1 GiB of RGBA bytes.
pub open spec fn png_encodable(w: int, h: int) -> bool {
    0 < w && 0 < h && w * h * 4 <= 0x4000_0000
}

/// Images of at most 128 MiB of RGBA bytes, which are claimed to decode back from their
/// PNG file within `image`'s default memory limit.
pub open spec fn png_round_trips(len: int) -> bool {
    len <= 0x800_0000
}

/// A canvas whose bytes are exactly its pixels.
pub open spec fn canvas_wf(c: Canvas) -> bool {
    canvas_bytes(c).len() == canvas_size(c).0 * canvas_size(c).1 * 4
}

/// The four bytes of pixel (x, y) of a row-major RGBA buffer `w` pixels wide.
pub open spec fn rgba_pixel(px: Seq<u8>, w: int, x: int, y: int) -> [u8; 4] {
    let k = (y * w + x) * 4;
    [px[k], px[k + 1], px[k + 2], px[k + 3]]
}

/// The bytes with the four at offset `k` replaced by a pixel color.
pub open spec fn with_pixel(bytes: Seq<u8>, k: int, color: [u8; 4]) -> Seq<u8> {
    bytes.take(k) + color@ + bytes.skip(k + 4)
}

impl Canvas {
    /// Makes a canvas of `width` by `height` pixels all of one color
    /// (`ImageBuffer::from_pixel`).
    ///
    /// Claimed of the crate: the buffer holds `width * height` copies of the color; the
    /// crate panics when that many bytes overflow `usize`, which `requires` keeps out.
    #[verifier::external_body]
    pub(crate) fn filled(width: u32, height: u32, color: [u8; 4]) -> (c: Canvas)
        requires
            width * height * 4 <= usize::MAX,
        ensures
            canvas_size(c) == (width, height),
            canvas_bytes(c) == Seq::new((width * height * 4) as nat, |i: int| color[i % 4]),
    {
        Canvas { img: ImageBuffer::from_pixel(width, height, Rgba(color)) }
    }

    /// The width and height of the canvas (`width`, `height`).
    #[verifier::external_body]
    pub(crate) fn size(&self) -> (r: (u32, u32))
        ensures
            r == canvas_size(*self),
    {
        (self.img.width(), self.img.height())
    }

    /// Sets pixel (x, y) to a color (`ImageBuffer::put_pixel`).
    ///
    /// Claimed of the crate: the four bytes of the pixel, at offset `(y * width + x) * 4`,
    /// become the color and nothing else changes; the crate panics outside the image, which
    /// `requires` keeps out.
    #[verifier::external_body]
    pub(crate) fn put(&mut self, x: u32, y: u32, color: [u8; 4])
        requires
            x < canvas_size(*old(self)).0,
            y < canvas_size(*old(self)).1,
        ensures
            canvas_size(*final(self)) == canvas_size(*old(self)),
            canvas_bytes(*final(self)) == with_pixel(
                canvas_bytes(*old(self)),
                (y * canvas_size(*old(self)).0 + x) * 4,
                color,
            ),
    {
        self.img.put_pixel(x, y, Rgba(color))
    }

    /// The color of pixel (x, y) (`ImageBuffer::get_pixel`).
    ///
    /// Claimed of the crate: the four bytes at offset `(y * width + x) * 4`; the crate
    /// panics outside the image, which `requires` keeps out.
    #[verifier::external_body]
    pub(crate) fn get(&self, x: u32, y: u32) -> (c: [u8; 4])
        requires
            x < canvas_size(*self).0,
            y < canvas_size(*self).1,
        ensures
            c == rgba_pixel(canvas_bytes(*self), canvas_size(*self).0 as int, x as int, y as int),
    {
        self.img.get_pixel(x, y).0
    }

    /// The raw bytes of the canvas (`ImageBuffer::into_raw`).
    #[verifier::external_body]
    pub(crate) fn into_bytes(self) -> (r: Vec<u8>)
        ensures
            r@ == canvas_bytes(self),
    {
        self.img.into_raw()
    }

    /// Encodes the canvas as PNG with `ImageBuffer::write_to` and `ImageFormat::Png`.
    ///
    /// Claimed of the crate: the result is a function of the dimensions and the pixel
    /// bytes. The `png` encoder refuses only a zero width or height (writing to a memory
    /// buffer cannot fail), and it writes the PNG signature first; success is claimed for
    /// nonzero sizes of at most 1 GiB of pixel bytes, and nothing is said of larger ones. PNG
    /// is lossless, and the file is an 8-bit RGBA PNG, which `load_from_memory` recognises
    /// by its signature and decodes back to the same RGBA image (`to_rgba8` then copies it):
    /// so decoding the file gives the dimensions and the bytes back. That is claimed for
    /// images up to 128 MiB of pixel bytes only: `load_from_memory` refuses to allocate more
    /// than its default limit of 512 MiB, and nothing is claimed of images near that limit.
    #[verifier::external_body]
    pub(crate) fn png(&self) -> (r: Result<Vec<u8>, String>)
        requires
            canvas_wf(*self),
        ensures
            ({
                let (w, h) = canvas_size(*self);
                let px = canvas_bytes(*self);
                match r {
                    Ok(png) => png_encoding(w, h, px) == Ok::<Seq<u8>, Seq<char>>(png@) && is_png_file(png@)
                        && (png_round_trips(px.len() as int) ==> image_decoding(png@) == Ok::<
                        (u32, u32, Seq<u8>),
                        Seq<char>,
                    >((w, h, px))),
                    Err(msg) => png_encoding(w, h, px) == Err::<Seq<u8>, Seq<char>>(msg@),
                }
            }),
            png_encodable(canvas_size(*self).0 as int, canvas_size(*self).1 as int) ==> r is Ok,
    {
        let mut out: Vec<u8> = Vec::new();
        match self.img.write_to(&mut std::io::Cursor::new(&mut out), image::ImageFormat::Png) {
            Ok(()) => Ok(out),
            Err(e) => Err(e.to_string()),
        }
    }

    /// Decodes an image file with `image::load_from_memory` and converts it to RGBA
    /// (`to_rgba8`).
    ///
    /// Claimed of the crate: the result is a function of the bytes; an RGBA buffer holds
    /// four bytes per pixel.
    #[verifier::external_body]
    pub(crate) fn decode(data: &[u8]) -> (r: Result<Canvas, String>)
        ensures
            match r {
                Ok(c) => canvas_wf(c) && image_decoding(data@) == Ok::<(u32, u32, Seq<u8>), Seq<char>>(
                    (canvas_size(c).0, canvas_size(c).1, canvas_bytes(c)),
                ),
                Err(msg) => image_decoding(data@) == Err::<(u32, u32, Seq<u8>), Seq<char>>(msg@),
            },
    {
        match image::load_from_memory(data) {
            Ok(img) => Ok(Canvas { img: img.to_rgba8() }),
            Err(e) => Err(e.to_string()),
        }
    }

    /// Scales the canvas to `size` by `size` pixels with `imageops::resize` and the
    /// Lanczos3 filter.
    ///
    /// Claimed of the crate: the result has exactly `size * size` pixels (an empty source
    /// gives a blank buffer of that size); the crate panics when that many bytes overflow
    /// `usize`, which `requires` keeps out. Nothing is claimed of the pixel values: the
    /// Lanczos3 kernel uses `f32::sin`, whose precision std leaves open, so two runs on the
    /// same image need not agree. Left unsaid: the crate's working buffer holds 16 bytes per
    /// pixel for the source width times `size`, which on a 32-bit target a very wide source
    /// could make too large to allocate.
    #[verifier::external_body]
    pub(crate) fn resized(&self, size: u32) -> (r: Canvas)
        requires
            size * size * 4 <= usize::MAX,
        ensures
            canvas_size(r) == (size, size),
            canvas_wf(r),
    {
        Canvas { img: image::imageops::resize(&self.img, size, size, image::imageops::FilterType::Lanczos3) }
    }
}

/// Setting the pixel at offset `k` of a buffer whose first `k` bytes are `prefix` leaves a
/// buffer of the same length whose first `k + 4` bytes are `prefix` and the color.
proof fn lemma_with_pixel_prefix(bytes: Seq<u8>, k: int, color: [u8; 4], prefix: Seq<u8>)
    requires
        0 <= k,
        k + 4 <= bytes.len(),
        bytes.take(k) == prefix,
    ensures
        with_pixel(bytes, k, color).len() == bytes.len(),
        with_pixel(bytes, k, color).take(k + 4) == prefix + color@,
        with_pixel(bytes, k, color).skip(k + 4) == bytes.skip(k + 4),
{
    assert(with_pixel(bytes, k, color).take(k + 4) =~= prefix + color@);
    assert(with_pixel(bytes, k, color).skip(k + 4) =~= bytes.skip(k + 4));
}

/// Paints pixel (x, y) of a canvas being filled in row-major order: the bytes before the
/// pixel stay, and the pixel's own four bytes follow them.
pub(crate) fn put_next(img: &mut Canvas, x: u32, y: u32, color: [u8; 4], Ghost(prefix): Ghost<Seq<u8>>)
    requires
        canvas_wf(*old(img)),
        x < canvas_size(*old(img)).0,
        y < canvas_size(*old(img)).1,
        canvas_bytes(*old(img)).take((y * canvas_size(*old(img)).0 + x) * 4) == prefix,
    ensures
        canvas_size(*final(img)) == canvas_size(*old(img)),
        canvas_wf(*final(img)),
        canvas_bytes(*final(img)).take((y * canvas_size(*old(img)).0 + x) * 4 + 4) == prefix + color@,
        canvas_bytes(*final(img)).skip((y * canvas_size(*old(img)).0 + x) * 4 + 4) == canvas_bytes(
            *old(img),
        ).skip((y * canvas_size(*old(img)).0 + x) * 4 + 4),
{
    let ghost (w, h) = canvas_size(*img);
    proof {
        assert((y * w + x) * 4 + 4 <= w * h * 4) by (nonlinear_arith)
            requires
                x < w,
                y < h,
        ;
        lemma_with_pixel_prefix(canvas_bytes(*img), (y * w + x) * 4, color, prefix);
    }
    img.put(x, y, color);
}

} // verus!
