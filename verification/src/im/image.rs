//! The image container and the operations on its samples.

use vstd::prelude::*;

verus! {

/// The image format.
#[derive(Clone, Copy, Debug, PartialEq, Eq, PartialOrd, Ord)]
pub enum Format {
    Gray,
    Rgb,
    Rgba,
}

impl Format {
    /// The number of samples of one pixel.
    pub open spec fn samples(self) -> int {
        match self {
            Format::Gray => 1,
            Format::Rgb => 3,
            Format::Rgba => 4,
        }
    }

    /// The number of samples of one pixel.
    pub fn channels(self) -> (r: usize)
        ensures
            r == self.samples(),
    {
        match self {
            Format::Gray => 1,
            Format::Rgb => 3,
            Format::Rgba => 4,
        }
    }

    /// Whether two formats are the same.
    pub fn same(self, other: Format) -> (r: bool)
        ensures
            r == (self == other),
    {
        match (self, other) {
            (Format::Gray, Format::Gray) => true,
            (Format::Rgb, Format::Rgb) => true,
            (Format::Rgba, Format::Rgba) => true,
            _ => false,
        }
    }
}

/// An image: `width * height` pixels, row after row, each pixel with the
/// samples of its format.
#[derive(Debug)]
pub struct Image {
    format: Format,
    width: u32,
    height: u32,
    data: Vec<u8>,
}

/// What an image holds.
pub struct ImageModel {
    pub format: Format,
    pub width: u32,
    pub height: u32,
    pub samples: Seq<u8>,
}

impl ImageModel {
    /// The number of samples that an image of this size has.
    pub open spec fn size(self) -> int {
        self.width * self.height * self.format.samples()
    }

    /// The place of the sample `k` of the pixel `(x, y)`.
    pub open spec fn place(self, x: int, y: int, k: int) -> int {
        (y * self.width + x) * self.format.samples() + k
    }

    /// The sample `k` of the pixel `(x, y)`.
    pub open spec fn at(self, x: int, y: int, k: int) -> u8 {
        self.samples[self.place(x, y, k)]
    }

    /// The image has as many samples as its size asks for.
    pub open spec fn wf(self) -> bool {
        self.samples.len() == self.size()
    }
}

/// The sample at the place `i` after `from` has been copied into `into` with
/// its top left corner at `(x, y)`.
pub open spec fn copied_at(into: ImageModel, from: ImageModel, x: int, y: int, i: int) -> u8 {
    let c = into.format.samples();
    let px = (i / c) % (into.width as int);
    let py = (i / c) / (into.width as int);
    if x <= px < x + from.width && y <= py < y + from.height {
        from.at(px - x, py - y, i % c)
    } else {
        into.samples[i]
    }
}

/// The sample at the place `i` while `from` is being copied into `into`:
/// the first `rows` rows of `from` are there, and the first `extra` samples
/// of the row after them.
pub open spec fn copying_at(
    into: ImageModel,
    from: ImageModel,
    x: int,
    y: int,
    rows: int,
    extra: int,
    i: int,
) -> u8 {
    let c = into.format.samples();
    let px = (i / c) % (into.width as int);
    let py = (i / c) / (into.width as int);
    if x <= px < x + from.width && y <= py < y + from.height && (py - y < rows || (py - y == rows
        && (px - x) * c + i % c < extra)) {
        from.at(px - x, py - y, i % c)
    } else {
        into.samples[i]
    }
}

/// `into` after `from` has been copied into it with its top left corner at
/// `(x, y)`.
pub open spec fn copied(into: ImageModel, from: ImageModel, x: int, y: int) -> ImageModel {
    ImageModel {
        samples: Seq::new(into.samples.len(), |i: int| copied_at(into, from, x, y, i)),
        ..into
    }
}

/// The grey samples that the `image` crate makes of the samples of an
/// image of `channels` samples a pixel: for each pixel its luminance.
pub uninterp spec fn luma8(samples: Seq<u8>, width: u32, height: u32, channels: int) -> Seq<u8>;

/// `DynamicImage::into_luma8` on an image buffer made of the samples: the
/// grey image of the same size, one sample for each pixel.
#[verifier::external_body]
fn into_luma(samples: &[u8], width: u32, height: u32, format: Format) -> (r: Vec<u8>)
    requires
        samples@.len() == width * height * format.samples(),
    ensures
        r@ == luma8(samples@, width, height, format.samples()),
        r@.len() == width * height,
{
    let data = samples.to_vec();
    let im = match format {
        Format::Gray => image::DynamicImage::ImageLuma8(image::GrayImage::from_raw(width, height, data).unwrap()),
        Format::Rgb => image::DynamicImage::ImageRgb8(image::RgbImage::from_raw(width, height, data).unwrap()),
        Format::Rgba => image::DynamicImage::ImageRgba8(image::RgbaImage::from_raw(width, height, data).unwrap()),
    };
    im.into_luma8().into_raw()
}

/// The sample `k` of a pixel after conversion to the format `to`. Grey is
/// spread over red, green and blue; colour becomes grey by its luminance,
/// as the `image` crate computes it; alpha, where it is new, is full.
pub open spec fn converted_sample(from: ImageModel, to: Format, pixel: int, k: int) -> u8 {
    let c = from.format.samples();
    let s = from.samples;
    match to {
        Format::Gray => match from.format {
            Format::Gray => s[pixel],
            _ => luma8(s, from.width, from.height, c)[pixel],
        },
        _ => if k == 3 {
            match from.format {
                Format::Rgba => s[pixel * c + 3],
                _ => 255u8,
            }
        } else {
            match from.format {
                Format::Gray => s[pixel],
                _ => s[pixel * c + k],
            }
        },
    }
}

/// The colour of a pixel: red, green and blue as the conversion to RGB
/// gives them.
pub open spec fn rgb_of(im: ImageModel, pixel: int) -> [u8; 3] {
    [
        converted_sample(im, Format::Rgb, pixel, 0),
        converted_sample(im, Format::Rgb, pixel, 1),
        converted_sample(im, Format::Rgb, pixel, 2),
    ]
}

/// An image in its own format is what its conversion to that format gives.
pub proof fn lemma_converted_same(im: ImageModel)
    requires
        im.wf(),
    ensures
        converted(im, im.format) == im,
{
    let c = im.format.samples();
    let n = im.width * im.height;
    let out = converted(im, im.format);
    assert(out.samples.len() == im.samples.len());
    assert forall|i: int| 0 <= i < im.samples.len() implies out.samples[i] == im.samples[i] by {
        assert(0 <= i / c < n && 0 <= i % c < c && (i / c) * c + i % c == i) by (nonlinear_arith)
            requires
                0 <= i < n * c,
                0 < c,
        ;
    }
    assert(out.samples =~= im.samples);
}

/// `from` in the format `to`.
pub open spec fn converted(from: ImageModel, to: Format) -> ImageModel {
    ImageModel {
        format: to,
        width: from.width,
        height: from.height,
        samples: Seq::new(
            (from.width * from.height * to.samples()) as nat,
            |i: int| converted_sample(from, to, i / to.samples(), i % to.samples()),
        ),
    }
}

/// A product of three stays below a bound of which each factor stays below.
proof fn lemma_place_in_size(w: int, h: int, c: int, x: int, y: int, k: int)
    requires
        0 <= x < w,
        0 <= y < h,
        0 <= k < c,
    ensures
        0 <= (y * w + x) * c + k < w * h * c,
{
    assert(0 <= y * w + x < w * h) by (nonlinear_arith)
        requires
            0 <= x < w,
            0 <= y < h,
    ;
    assert((y * w + x) * c + k < w * h * c) by (nonlinear_arith)
        requires
            0 <= y * w + x < w * h,
            0 <= k < c,
    ;
    assert(0 <= (y * w + x) * c + k) by (nonlinear_arith)
        requires
            0 <= y * w + x,
            0 <= k < c,
    ;
}

/// The sample `t` of a row of a window that starts at the pixel `(x, row)`
/// of an image of the width `w` lies at the pixel `(x + t / c, row)`.
proof fn lemma_row_place(w: int, c: int, row: int, x: int, fw: int, t: int)
    requires
        0 < c,
        0 <= x,
        0 <= row,
        x + fw <= w,
        0 <= t < fw * c,
    ensures
        0 <= t / c < fw,
        0 <= t % c < c,
        (t / c) * c + t % c == t,
        ((row * w + x) * c + t) / c == row * w + x + t / c,
        ((row * w + x) * c + t) % c == t % c,
        (row * w + x + t / c) % w == x + t / c,
        (row * w + x + t / c) / w == row,
{
    let q = t / c;
    let k = t % c;
    assert(0 <= q < fw && 0 <= k < c && q * c + k == t) by (nonlinear_arith)
        requires
            0 < c,
            0 <= t < fw * c,
            q == t / c,
            k == t % c,
    ;
    let j = (row * w + x) * c + t;
    assert(j == (row * w + x + q) * c + k) by (nonlinear_arith)
        requires
            j == (row * w + x) * c + t,
            t == q * c + k,
    ;
    vstd::arithmetic::div_mod::lemma_fundamental_div_mod_converse(j, c, row * w + x + q, k);
    vstd::arithmetic::div_mod::lemma_fundamental_div_mod_converse(
        row * w + x + q,
        w,
        row,
        x + q,
    );
}

/// A place within the size decodes to a pixel within the image.
proof fn lemma_decode_place(w: int, h: int, c: int, i: int)
    requires
        0 <= i < w * h * c,
        0 < c,
        0 <= w,
        0 <= h,
    ensures
        0 < w,
        0 <= (i / c) % w < w,
        0 <= (i / c) / w < h,
        0 <= i % c < c,
        ((i / c) / w * w + (i / c) % w) * c + i % c == i,
{
    assert(0 < w) by (nonlinear_arith)
        requires
            0 <= i < w * h * c,
            0 <= w,
            0 <= h,
            0 < c,
    ;
    let p = i / c;
    assert(0 <= p < w * h && p * c + i % c == i && 0 <= i % c < c) by (nonlinear_arith)
        requires
            0 <= i < w * h * c,
            0 < c,
            p == i / c,
    ;
    assert(0 <= p % w < w && 0 <= p / w < h && (p / w) * w + p % w == p) by (nonlinear_arith)
        requires
            0 <= p < w * h,
            0 < w,
    ;
}

/// A place in an image of `n` pixels decodes to one of its pixels, and the
/// samples of that pixel lie within any image of `n` pixels.
proof fn lemma_pixel_of_place(n: int, c: int, d: int, i: int)
    requires
        0 <= i < n * c,
        0 < c,
        0 < d,
    ensures
        0 <= i / c < n,
        0 <= i % c < c,
        0 <= (i / c) * d,
        (i / c) * d + d <= n * d,
{
    let p = i / c;
    assert(0 <= p < n && 0 <= i % c < c) by (nonlinear_arith)
        requires
            0 <= i < n * c,
            0 < c,
            p == i / c,
    ;
    assert(0 <= p * d && p * d + d <= n * d) by (nonlinear_arith)
        requires
            0 <= p < n,
            0 < d,
    ;
}

impl View for Image {
    type V = ImageModel;

    closed spec fn view(&self) -> ImageModel {
        ImageModel {
            format: self.format,
            width: self.width,
            height: self.height,
            samples: self.data@,
        }
    }
}

impl Image {
    #[verifier::type_invariant]
    spec fn well_formed(&self) -> bool {
        self.data@.len() == self.width * self.height * self.format.samples()
    }

    /// The number of samples of an image of the given size, where a `usize`
    /// holds it.
    pub fn size_of(width: u32, height: u32, format: Format) -> (r: Option<usize>)
        ensures
            match r {
                Some(size) => size == width * height * format.samples(),
                None => width * height * format.samples() > usize::MAX,
            },
    {
        assert(width * height <= 0xFFFF_FFFF * 0xFFFF_FFFF) by (nonlinear_arith)
            requires
                0 <= width <= 0xFFFF_FFFF,
                0 <= height <= 0xFFFF_FFFF,
        ;
        let pixels = width as u128 * height as u128;
        let size = pixels * format.channels() as u128;
        assert(size == width * height * format.samples()) by (nonlinear_arith)
            requires
                size == pixels * format.samples(),
                pixels == width * height,
        ;
        if size <= usize::MAX as u128 {
            Some(size as usize)
        } else {
            None
        }
    }

    /// An image of the given size and format with every sample zero.
    pub fn empty(size: (u32, u32), format: Format) -> (r: Image)
        requires
            size.0 * size.1 * format.samples() <= usize::MAX,
        ensures
            r@.format == format,
            r@.width == size.0,
            r@.height == size.1,
            r@.wf(),
            forall|i: int| 0 <= i < r@.samples.len() ==> r@.samples[i] == 0,
    {
        let len = match Image::size_of(size.0, size.1, format) {
            Some(len) => len,
            None => 0,
        };
        let data = vec![0u8; len];
        Image { format, width: size.0, height: size.1, data }
    }

    /// The image of the given size and format that holds `data`; `None` where
    /// `data` has another length than the size asks for.
    pub fn from_raw(size: (u32, u32), format: Format, data: Vec<u8>) -> (r: Option<Image>)
        ensures
            r is Some <==> data@.len() == size.0 * size.1 * format.samples(),
            match r {
                Some(im) => im@ == (ImageModel {
                    format,
                    width: size.0,
                    height: size.1,
                    samples: data@,
                }),
                None => true,
            },
    {
        let given = data.len();
        match Image::size_of(size.0, size.1, format) {
            Some(len) => if given == len {
                Some(Image { format, width: size.0, height: size.1, data })
            } else {
                None
            },
            None => None,
        }
    }

    /// The format.
    pub fn format(&self) -> (r: Format)
        ensures
            r == self@.format,
    {
        self.format
    }

    /// Width and height.
    pub fn dimensions(&self) -> (r: (u32, u32))
        ensures
            r == (self@.width, self@.height),
    {
        (self.width, self.height)
    }

    /// The number of pixels.
    pub fn pixels(&self) -> (r: usize)
        ensures
            r == self@.width * self@.height,
            self@.wf(),
    {
        proof {
            use_type_invariant(self);
        }
        let c = self.format.channels();
        let len = self.data.len();
        let r = len / c;
        assert(r == self.width * self.height) by (nonlinear_arith)
            requires
                len == self.width * self.height * c,
                r == len / c,
                c > 0,
        ;
        r
    }

    /// The colour of the pixel `pixel`, counted row after row.
    pub fn rgb_at(&self, pixel: usize) -> (r: [u8; 3])
        requires
            pixel < self@.width * self@.height,
        ensures
            r == rgb_of(self@, pixel as int),
    {
        proof {
            use_type_invariant(self);
        }
        let c = self.format.channels();
        let limit = self.data.len();
        assert(0 <= pixel * c && pixel * c + c <= limit) by (nonlinear_arith)
            requires
                limit == self.width * self.height * c,
                0 <= pixel < self.width * self.height,
                c > 0,
        ;
        let at = pixel * c;
        match self.format {
            Format::Gray => [self.data[at], self.data[at], self.data[at]],
            _ => [self.data[at], self.data[at + 1], self.data[at + 2]],
        }
    }

    /// The samples, row after row.
    pub fn as_bytes(&self) -> (r: &[u8])
        ensures
            r@ == self@.samples,
            self@.wf(),
    {
        proof {
            use_type_invariant(self);
        }
        self.data.as_slice()
    }

    /// Gives up the samples.
    pub fn into_raw(self) -> (r: Vec<u8>)
        ensures
            r@ == self@.samples,
            self@.wf(),
    {
        proof {
            use_type_invariant(&self);
        }
        self.data
    }

    /// A copy of this image in the format `to`.
    pub fn to_format(&self, to: Format) -> (r: Image)
        requires
            self@.width * self@.height * to.samples() <= usize::MAX,
        ensures
            r@ == converted(self@, to),
            r@.wf(),
    {
        proof {
            use_type_invariant(self);
        }
        let c = self.format.channels();
        let d = to.channels();
        let ghost n = self.width * self.height;
        let from_gray = self.format.same(Format::Gray);
        if to.same(Format::Gray) && !from_gray {
            let data = into_luma(self.data.as_slice(), self.width, self.height, self.format);
            proof {
                assert(data@ =~= converted(self@, to).samples);
            }
            return Image { format: to, width: self.width, height: self.height, data };
        }
        let len = match Image::size_of(self.width, self.height, to) {
            Some(len) => len,
            None => 0,
        };
        let mut out: Vec<u8> = Vec::new();
        let mut i: usize = 0;
        while i < len
            invariant
                0 <= i <= len,
                to is Gray ==> self.format is Gray,
                len == n * d,
                n == self.width * self.height,
                self.data@.len() == n * c,
                c == self.format.samples(),
                d == to.samples(),
                out@.len() == i,
                forall|j: int|
                    0 <= j < i ==> out@[j] == converted_sample(
                        self@,
                        to,
                        j / (d as int),
                        j % (d as int),
                    ),
            decreases len - i,
        {
            proof {
                lemma_pixel_of_place(n, d as int, c as int, i as int);
            }
            let pixel = i / d;
            let k = i % d;
            let limit = self.data.len();
            assert(0 <= pixel * c && pixel * c + c <= limit);
            let at = pixel * c;
            let s = match to {
                Format::Gray => self.data[at],
                _ => if k == 3 {
                    match self.format {
                        Format::Rgba => self.data[at + 3],
                        _ => 255u8,
                    }
                } else {
                    match self.format {
                        Format::Gray => self.data[at],
                        _ => self.data[at + k],
                    }
                },
            };
            out.push(s);
            i = i + 1;
        }
        proof {
            assert(out@ =~= converted(self@, to).samples);
        }
        Image { format: to, width: self.width, height: self.height, data: out }
    }

    /// This image in grey.
    pub fn into_gray(self) -> (r: Image)
        ensures
            r@ == converted(self@, Format::Gray),
            r@.wf(),
    {
        let limit = self.data.len();
        proof {
            use_type_invariant(&self);
            assert(self.width * self.height * 1 <= self.width * self.height
                * self.format.samples()) by (nonlinear_arith)
                requires
                    self.format.samples() >= 1,
                    self.width >= 0,
                    self.height >= 0,
            ;
        }
        self.to_format(Format::Gray)
    }

    /// This image in RGB.
    pub fn into_rgb(self) -> (r: Image)
        requires
            self@.width * self@.height * 3 <= usize::MAX,
        ensures
            r@ == converted(self@, Format::Rgb),
            r@.wf(),
    {
        self.to_format(Format::Rgb)
    }

    /// This image in RGBA.
    pub fn into_rgba(self) -> (r: Image)
        requires
            self@.width * self@.height * 4 <= usize::MAX,
        ensures
            r@ == converted(self@, Format::Rgba),
            r@.wf(),
    {
        self.to_format(Format::Rgba)
    }

    /// This image in the format `format`; the image itself where it has that
    /// format already.
    pub fn into_format(self, format: Format) -> (r: Image)
        requires
            self@.width * self@.height * format.samples() <= usize::MAX,
        ensures
            r@ == (if self@.format == format {
                self@
            } else {
                converted(self@, format)
            }),
            r@.wf(),
    {
        proof {
            use_type_invariant(&self);
        }
        if self.format().same(format) {
            return self;
        }
        match format {
            Format::Gray => self.into_gray(),
            Format::Rgb => self.into_rgb(),
            Format::Rgba => self.into_rgba(),
        }
    }

    /// Copies another image into this image, the top left corner of the other
    /// at the pixel `at` of this one.
    ///
    /// Both images must have one format, and the other must lie within this
    /// one.
    pub fn copy_from(&mut self, from: &Image, at: (u32, u32))
        requires
            old(self)@.format == from@.format,
            at.0 + from@.width <= old(self)@.width,
            at.1 + from@.height <= old(self)@.height,
        ensures
            final(self)@ == copied(old(self)@, from@, at.0 as int, at.1 as int),
            final(self)@.wf(),
    {
        proof {
            use_type_invariant(&*self);
            use_type_invariant(from);
        }
        let x = at.0 as usize;
        let y = at.1 as usize;
        let c = self.format.channels();
        let width = self.width as usize;
        let from_width = from.width as usize;
        let from_height = from.height as usize;
        assert(0 * 0 * self.format.samples() == 0) by (nonlinear_arith);
        let mut rest = Image { format: self.format, width: 0, height: 0, data: Vec::new() };
        core::mem::swap(self, &mut rest);
        let Image { format, width: w, height: h, data } = rest;
        let mut data = data;
        let limit = data.len();
        let from_limit = from.data.len();
        let ghost before = old(self)@;
        let ghost other = from@;
        let mut row: usize = 0;
        while row < from_height
            invariant
                0 <= row <= from_height,
                data@.len() == before.samples.len(),
                limit == data@.len(),
                from_limit == from.data@.len(),
                before.wf(),
                other.wf(),
                before == old(self)@,
                other == from@,
                other.samples == from.data@,
                before.format == other.format,
                c == before.format.samples(),
                width == before.width,
                from_width == other.width,
                from_height == other.height,
                x + other.width <= before.width,
                y + other.height <= before.height,
                forall|j: int|
                    0 <= j < data@.len() ==> data@[j] == copying_at(
                        before,
                        other,
                        x as int,
                        y as int,
                        row as int,
                        0,
                        j,
                    ),
            decreases from_height - row,
        {
            proof {
                // the window row lies within both images
                if from_width > 0 {
                    lemma_place_in_size(
                        before.width as int,
                        before.height as int,
                        c as int,
                        x + from_width - 1,
                        (y + row) as int,
                        c - 1,
                    );
                    lemma_place_in_size(
                        other.width as int,
                        other.height as int,
                        c as int,
                        from_width - 1,
                        row as int,
                        c - 1,
                    );
                }
                assert(((y + row) * width + x) * c + from_width * c == ((y + row) * width + x
                    + from_width - 1) * c + (c - 1) + 1) by (nonlinear_arith);
                assert((row * from_width) * c + from_width * c == (row * from_width + from_width
                    - 1) * c + (c - 1) + 1) by (nonlinear_arith);
                assert(0 <= (y + row) * width && 0 <= ((y + row) * width + x) * c && 0 <= row
                    * from_width && 0 <= (row * from_width) * c && 0 <= from_width * c)
                    by (nonlinear_arith)
                    requires
                        0 <= y,
                        0 <= row,
                        0 <= width,
                        0 <= x,
                        0 <= c,
                        0 <= from_width,
                ;
                assert((y + row) * width <= ((y + row) * width + x) * c && row * from_width <= (row
                    * from_width) * c) by (nonlinear_arith)
                    requires
                        0 <= (y + row) * width,
                        0 <= row * from_width,
                        0 <= x,
                        1 <= c,
                ;
            }
            if from_width == 0 {
                proof {
                    assert forall|j: int| 0 <= j < data@.len() implies data@[j] == copying_at(
                        before,
                        other,
                        x as int,
                        y as int,
                        row + 1,
                        0,
                        j,
                    ) by {
                        assert(data@[j] == copying_at(
                            before,
                            other,
                            x as int,
                            y as int,
                            row as int,
                            0,
                            j,
                        ));
                    }
                }
                row = row + 1;
                continue ;
            }
            let into_start = ((y + row) * width + x) * c;
            let from_start = (row * from_width) * c;
            let samples = from_width * c;
            let mut t: usize = 0;
            while t < samples
                invariant
                    0 <= t <= samples,
                    0 <= row < from_height,
                    samples == from_width * c,
                    from_width > 0,
                    into_start == ((y + row) * width + x) * c,
                    from_start == (row * from_width) * c,
                    into_start + samples <= limit,
                    from_start + samples <= from_limit,
                    data@.len() == before.samples.len(),
                    limit == data@.len(),
                    from_limit == from.data@.len(),
                    before.wf(),
                    other.wf(),
                    other.samples == from.data@,
                    before.format == other.format,
                    c == before.format.samples(),
                    width == before.width,
                    from_width == other.width,
                    from_height == other.height,
                    x + other.width <= before.width,
                    y + other.height <= before.height,
                    forall|j: int|
                        0 <= j < data@.len() ==> data@[j] == copying_at(
                            before,
                            other,
                            x as int,
                            y as int,
                            row as int,
                            t as int,
                            j,
                        ),
                decreases samples - t,
            {
                let ghost old_data = data@;
                let i = into_start + t;
                let s = from.data[from_start + t];
                data[i] = s;
                proof {
                    lemma_row_place(
                        width as int,
                        c as int,
                        (y + row) as int,
                        x as int,
                        from_width as int,
                        t as int,
                    );
                    let q = t as int / c as int;
                    let k = t as int % c as int;
                    assert((row * from_width + q) * c + k == (row * from_width) * c + t)
                        by (nonlinear_arith)
                        requires
                            q * c + k == t,
                    ;
                    assert forall|j: int| 0 <= j < data@.len() implies data@[j] == copying_at(
                        before,
                        other,
                        x as int,
                        y as int,
                        row as int,
                        t + 1,
                        j,
                    ) by {
                        let was = copying_at(before, other, x as int, y as int, row as int, t as int, j);
                        let now = copying_at(before, other, x as int, y as int, row as int, t + 1, j);
                        lemma_decode_place(
                            before.width as int,
                            before.height as int,
                            c as int,
                            j,
                        );
                        let px = (j / c as int) % (width as int);
                        let py = (j / c as int) / (width as int);
                        if j == i {
                            assert(px == x + q && py == y + row && j % (c as int) == k);
                            assert((px - x) * c + k == t);
                        } else {
                            assert(old_data[j] == was);
                            if py - y == row && x <= px < x + from_width && (px - x) * c + j % (
                            c as int) == t {
                                // then `j` is the place that was written
                                assert((px - x) * c + j % (c as int) == q * c + k);
                                assert(px - x == q && j % (c as int) == k) by (nonlinear_arith)
                                    requires
                                        (px - x) * c + j % (c as int) == q * c + k,
                                        0 <= j % (c as int) < c,
                                        0 <= k < c,
                                        0 < c,
                                ;
                                assert(false);
                            }
                            assert(was == now);
                        }
                    }
                }
                t = t + 1;
            }
            proof {
                assert forall|j: int| 0 <= j < data@.len() implies data@[j] == copying_at(
                    before,
                    other,
                    x as int,
                    y as int,
                    row + 1,
                    0,
                    j,
                ) by {
                    lemma_decode_place(before.width as int, before.height as int, c as int, j);
                    let px = (j / c as int) % (width as int);
                    if x <= px < x + from_width {
                        assert((px - x) * c + j % (c as int) < from_width * c) by (nonlinear_arith)
                            requires
                                0 <= px - x < from_width,
                                0 <= j % (c as int) < c,
                        ;
                    }
                    assert(data@[j] == copying_at(
                        before,
                        other,
                        x as int,
                        y as int,
                        row as int,
                        samples as int,
                        j,
                    ));
                }
            }
            row = row + 1;
        }
        proof {
            assert forall|j: int| 0 <= j < data@.len() implies data@[j] == copied_at(
                before,
                other,
                x as int,
                y as int,
                j,
            ) by {
                assert(data@[j] == copying_at(
                    before,
                    other,
                    x as int,
                    y as int,
                    from_height as int,
                    0,
                    j,
                ));
            }
            assert(data@ =~= copied(before, other, x as int, y as int).samples);
        }
        *self = Image { format, width: w, height: h, data };
    }
}

} // verus!
