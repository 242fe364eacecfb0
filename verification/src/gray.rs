//! Row-major single-channel images: shape, indexing, and resampling by index.
//!
//! The pixel type is a parameter: the feature pipeline instantiates it with
//! normalized intensities, and images decoded by the `image` crate arrive with
//! 8-bit luminance pixels.

use vstd::prelude::*;

verus! {

#[verifier::external_type_specification]
#[verifier::external_body]
pub struct ExDynamicImage(image::DynamicImage);

/// Errors returned while constructing a [`GrayImage`].
#[derive(Clone, Copy, Debug, PartialEq, Eq, Structural)]
pub enum GrayImageError {
    /// Width or height was zero.
    EmptyImage,
    /// `width * height` overflowed `usize`.
    DimensionOverflow,
    /// The supplied buffer length did not match `width * height`.
    InvalidBufferLength { expected: usize, actual: usize },
}

/// A single-channel image with row-major pixels.
///
/// The pixel buffer holds at least `width * height` pixels; pixel `(x, y)` is at
/// position `y * width + x`.
#[derive(Debug, PartialEq)]
pub struct GrayImage<P> {
    width: usize,
    height: usize,
    data: Vec<P>,
}

/// Clamps coordinate `v` into `[0, n - 1]`.
pub open spec fn clamp_coordinate(v: int, n: int) -> int {
    if v < 0 {
        0
    } else if v > n - 1 {
        n - 1
    } else {
        v
    }
}

/// Buffer position of pixel `(x, y)` in a row-major image of the given width.
pub open spec fn pixel_index(width: int, x: int, y: int) -> int {
    y * width + x
}

proof fn lemma_pixel_index_bounds(width: int, height: int, x: int, y: int)
    requires
        0 <= x < width,
        0 <= y < height,
    ensures
        0 <= pixel_index(width, x, y) < width * height,
        0 <= y * width,
        y * width + x < width * height,
        width * height == height * width,
        y * width + width <= height * width,
{
    assert(width * height == height * width) by (nonlinear_arith);
    assert(y * width + width <= height * width) by (nonlinear_arith)
        requires 0 <= y < height, 0 <= width;
    assert(0 <= y * width) by (nonlinear_arith)
        requires 0 <= y, 0 <= width;
    assert(y * width + x < width * height) by (nonlinear_arith)
        requires 0 <= x < width, 0 <= y < height;
}

proof fn lemma_pixel_index_injective(width: int, x1: int, y1: int, x2: int, y2: int)
    requires
        0 <= x1 < width,
        0 <= x2 < width,
        0 <= y1,
        0 <= y2,
        pixel_index(width, x1, y1) == pixel_index(width, x2, y2),
    ensures
        x1 == x2 && y1 == y2,
{
    if y1 < y2 {
        assert(y1 * width + width <= y2 * width) by (nonlinear_arith)
            requires y1 < y2, 0 <= width;
    } else if y2 < y1 {
        assert(y2 * width + width <= y1 * width) by (nonlinear_arith)
            requires y2 < y1, 0 <= width;
    }
}

impl<P: Clone> Clone for GrayImage<P> {
    /// Copies the image; each pixel is cloned.
    fn clone(&self) -> (copy: Self)
        ensures
            copy.spec_width() == self.spec_width(),
            copy.spec_height() == self.spec_height(),
            copy@.len() == self@.len(),
            forall|i: int| 0 <= i < self@.len() ==> cloned::<P>(self@[i], #[trigger] copy@[i]),
    {
        proof {
            use_type_invariant(self);
        }
        GrayImage { width: self.width, height: self.height, data: self.data.clone() }
    }
}

impl<P> View for GrayImage<P> {
    type V = Seq<P>;

    /// The row-major pixel buffer.
    closed spec fn view(&self) -> Seq<P> {
        self.data@
    }
}

impl<P> GrayImage<P> {
    #[verifier::type_invariant]
    spec fn buffer_fits(self) -> bool {
        self.width * self.height <= self.data@.len()
    }

    /// The image width in pixels.
    pub closed spec fn spec_width(&self) -> usize {
        self.width
    }

    /// The image height in pixels.
    pub closed spec fn spec_height(&self) -> usize {
        self.height
    }

    /// Pixel `(x, y)`.
    pub open spec fn pixel(&self, x: int, y: int) -> P {
        self@[pixel_index(self.spec_width() as int, x, y)]
    }

    /// Creates an image from a row-major buffer of exactly `width * height` pixels.
    pub fn new(width: usize, height: usize, data: Vec<P>) -> (result: Result<Self, GrayImageError>)
        ensures
            (width == 0 || height == 0) ==> result == Err::<Self, _>(GrayImageError::EmptyImage),
            (width > 0 && height > 0 && width * height > usize::MAX) ==> result == Err::<Self, _>(
                GrayImageError::DimensionOverflow,
            ),
            (width > 0 && height > 0 && width * height <= usize::MAX && data@.len() != width
                * height) ==> result == Err::<Self, _>(
                GrayImageError::InvalidBufferLength {
                    expected: (width * height) as usize,
                    actual: data@.len() as usize,
                },
            ),
            result is Ok <==> (width > 0 && height > 0 && data@.len() == width * height),
            result matches Ok(image) ==> image.spec_width() == width && image.spec_height()
                == height && image@ == data@,
    {
        let actual = data.len();
        if width == 0 || height == 0 {
            return Err(GrayImageError::EmptyImage);
        }
        let expected = match width.checked_mul(height) {
            Some(expected) => expected,
            None => return Err(GrayImageError::DimensionOverflow),
        };
        if actual != expected {
            return Err(GrayImageError::InvalidBufferLength { expected, actual });
        }
        Ok(GrayImage { width, height, data })
    }

    /// Creates an image whose every pixel is `zero`.
    pub fn zeros(width: usize, height: usize, zero: P) -> (result: Result<Self, GrayImageError>)
        where
            P: Copy,
        ensures
            (width == 0 || height == 0) ==> result == Err::<Self, _>(GrayImageError::EmptyImage),
            (width > 0 && height > 0 && width * height > usize::MAX) ==> result == Err::<Self, _>(
                GrayImageError::DimensionOverflow,
            ),
            result is Ok <==> (width > 0 && height > 0 && width * height <= usize::MAX),
            result matches Ok(image) ==> image.spec_width() == width && image.spec_height()
                == height && image@ == Seq::new((width * height) as nat, |i: int| zero),
    {
        if width == 0 || height == 0 {
            return Err(GrayImageError::EmptyImage);
        }
        let len = match width.checked_mul(height) {
            Some(len) => len,
            None => return Err(GrayImageError::DimensionOverflow),
        };
        let mut data: Vec<P> = Vec::new();
        let mut i: usize = 0;
        while i < len
            invariant
                i <= len,
                data@ == Seq::new(i as nat, |k: int| zero),
            decreases len - i,
        {
            data.push(zero);
            proof {
                assert(data@ =~= Seq::new((i + 1) as nat, |k: int| zero));
            }
            i += 1;
        }
        Ok(GrayImage { width, height, data })
    }

    /// Creates an image by evaluating `f(x, y)` for each pixel, row by row.
    pub fn from_fn<F>(width: usize, height: usize, f: F) -> (result: Result<Self, GrayImageError>)
        where
            F: Fn(usize, usize) -> P,
        requires
            forall|x: usize, y: usize| x < width && y < height ==> call_requires(f, (x, y)),
        ensures
            (width == 0 || height == 0) ==> result == Err::<Self, _>(GrayImageError::EmptyImage),
            (width > 0 && height > 0 && width * height > usize::MAX) ==> result == Err::<Self, _>(
                GrayImageError::DimensionOverflow,
            ),
            result is Ok <==> (width > 0 && height > 0 && width * height <= usize::MAX),
            result matches Ok(image) ==> {
                &&& image.spec_width() == width
                &&& image.spec_height() == height
                &&& image@.len() == width * height
                &&& forall|x: usize, y: usize|
                    x < width && y < height ==> call_ensures(f, (x, y), #[trigger] image.pixel(x as int, y as int))
            },
    {
        if width == 0 || height == 0 {
            return Err(GrayImageError::EmptyImage);
        }
        let len = match width.checked_mul(height) {
            Some(len) => len,
            None => return Err(GrayImageError::DimensionOverflow),
        };
        let mut data: Vec<P> = Vec::new();
        let mut y: usize = 0;
        while y < height
            invariant
                width > 0,
                y <= height,
                len == width * height,
                forall|x: usize, y: usize| x < width && y < height ==> call_requires(f, (x, y)),
                data@.len() == y * width,
                forall|xx: usize, yy: usize|
                    xx < width && yy < y ==> call_ensures(f, (xx, yy), #[trigger] data@[pixel_index(width as int, xx as int, yy as int)]),
            decreases height - y,
        {
            proof {
                assert(y * width + width <= height * width) by (nonlinear_arith)
                    requires y < height, 0 <= width;
            }
            let mut x: usize = 0;
            while x < width
                invariant
                    width > 0,
                    y < height,
                    x <= width,
                    len == width * height,
                    y * width + width <= width * height,
                    forall|x: usize, y: usize| x < width && y < height ==> call_requires(f, (x, y)),
                    data@.len() == y * width + x,
                    forall|xx: usize, yy: usize|
                        (xx < width && yy < y) || (xx < x && yy == y) ==> call_ensures(f, (xx, yy), #[trigger] data@[pixel_index(width as int, xx as int, yy as int)]),
                decreases width - x,
            {
                let value = f(x, y);
                let ghost before = data@;
                data.push(value);
                proof {
                    assert forall|xx: usize, yy: usize|
                        (xx < width && yy < y) || (xx < x + 1 && yy == y) implies call_ensures(f, (xx, yy), #[trigger] data@[pixel_index(width as int, xx as int, yy as int)]) by {
                        if yy < y {
                            lemma_pixel_index_bounds(width as int, y as int, xx as int, yy as int);
                            assert(data@[pixel_index(width as int, xx as int, yy as int)] == before[pixel_index(width as int, xx as int, yy as int)]);
                        } else if xx < x {
                            assert(data@[pixel_index(width as int, xx as int, yy as int)] == before[pixel_index(width as int, xx as int, yy as int)]);
                        } else {
                            assert(pixel_index(width as int, xx as int, yy as int) == before.len());
                        }
                    }
                }
                x += 1;
            }
            proof {
                assert((y + 1) * width == y * width + width) by (nonlinear_arith);
            }
            y += 1;
        }
        proof {
            assert(width * height == height * width) by (nonlinear_arith);
        }
        let image = GrayImage { width, height, data };
        proof {
            assert forall|x: usize, y: usize| x < width && y < height implies call_ensures(f, (x, y), #[trigger] image.pixel(x as int, y as int)) by {
                lemma_pixel_index_bounds(width as int, height as int, x as int, y as int);
                assert(image.pixel(x as int, y as int) == image.data@[pixel_index(width as int, x as int, y as int)]);
            }
        }
        Ok(image)
    }

    /// Returns the image width in pixels.
    #[verifier::when_used_as_spec(spec_width)]
    pub fn width(&self) -> (width: usize)
        ensures
            width == self.spec_width(),
    {
        self.width
    }

    /// Returns the image height in pixels.
    #[verifier::when_used_as_spec(spec_height)]
    pub fn height(&self) -> (height: usize)
        ensures
            height == self.spec_height(),
    {
        self.height
    }

    /// Returns the row-major pixel buffer.
    pub fn data(&self) -> (data: &[P])
        ensures
            data@ == self@,
            data@.len() >= self.spec_width() * self.spec_height(),
    {
        proof {
            use_type_invariant(self);
        }
        self.data.as_slice()
    }

    /// Returns the pixel at `(x, y)`.
    pub fn get(&self, x: usize, y: usize) -> (value: P)
        where
            P: Copy,
        requires
            x < self.spec_width(),
            y < self.spec_height(),
        ensures
            value == self.pixel(x as int, y as int),
    {
        let n = self.data.len();
        proof {
            use_type_invariant(self);
            lemma_pixel_index_bounds(self.width as int, self.height as int, x as int, y as int);
        }
        self.data[y * self.width + x]
    }

    /// Sets the pixel at `(x, y)`; every other pixel keeps its value.
    pub fn set(&mut self, x: usize, y: usize, value: P)
        requires
            x < old(self).spec_width(),
            y < old(self).spec_height(),
        ensures
            final(self).spec_width() == old(self).spec_width(),
            final(self).spec_height() == old(self).spec_height(),
            final(self)@ == old(self)@.update(pixel_index(old(self).spec_width() as int, x as int, y as int), value),
            final(self).pixel(x as int, y as int) == value,
            forall|xx: int, yy: int|
                0 <= xx < old(self).spec_width() && 0 <= yy < old(self).spec_height() && !(xx == x
                    && yy == y) ==> #[trigger] final(self).pixel(xx, yy) == old(self).pixel(xx, yy),
    {
        let n = self.data.len();
        proof {
            use_type_invariant(&*self);
            lemma_pixel_index_bounds(self.width as int, self.height as int, x as int, y as int);
        }
        let index = y * self.width + x;
        let mut image = GrayImage { width: 0, height: 0, data: Vec::new() };
        std::mem::swap(&mut image, self);
        let GrayImage { width, height, mut data } = image;
        data.set(index, value);
        *self = GrayImage { width, height, data };
        proof {
            assert forall|xx: int, yy: int|
                0 <= xx < old(self).spec_width() && 0 <= yy < old(self).spec_height() && !(xx == x
                    && yy == y) implies #[trigger] self.pixel(xx, yy) == old(self).pixel(xx, yy) by {
                lemma_pixel_index_bounds(self.width as int, self.height as int, xx, yy);
                if pixel_index(self.width as int, xx, yy) == index {
                    lemma_pixel_index_injective(self.width as int, xx, yy, x as int, y as int);
                }
            }
        }
    }

    /// Returns a pixel, clamping out-of-range coordinates to the nearest edge.
    pub fn get_clamped(&self, x: isize, y: isize) -> (value: P)
        where
            P: Copy,
        requires
            0 < self.spec_width() <= isize::MAX,
            0 < self.spec_height() <= isize::MAX,
        ensures
            value == self.pixel(
                clamp_coordinate(x as int, self.spec_width() as int),
                clamp_coordinate(y as int, self.spec_height() as int),
            ),
    {
        let cx: usize = if x < 0 {
            0
        } else if x as usize > self.width - 1 {
            self.width - 1
        } else {
            x as usize
        };
        let cy: usize = if y < 0 {
            0
        } else if y as usize > self.height - 1 {
            self.height - 1
        } else {
            y as usize
        };
        self.get(cx, cy)
    }

    /// Applies `f` to every pixel of the buffer, keeping the shape.
    pub fn map<Q, F>(&self, f: F) -> (result: GrayImage<Q>)
        where
            F: Fn(&P) -> Q,
        requires
            forall|i: int| 0 <= i < self@.len() ==> call_requires(f, (&self@[i],)),
        ensures
            result.spec_width() == self.spec_width(),
            result.spec_height() == self.spec_height(),
            result@.len() == self@.len(),
            forall|i: int| 0 <= i < self@.len() ==> call_ensures(f, (&self@[i],), #[trigger] result@[i]),
    {
        proof {
            use_type_invariant(self);
        }
        let mut data: Vec<Q> = Vec::new();
        let mut i: usize = 0;
        while i < self.data.len()
            invariant
                i <= self.data@.len(),
                self@ == self.data@,
                forall|i: int| 0 <= i < self@.len() ==> call_requires(f, (&self@[i],)),
                data@.len() == i,
                forall|k: int| 0 <= k < i ==> call_ensures(f, (&self@[k],), #[trigger] data@[k]),
            decreases self.data@.len() - i,
        {
            let value = f(&self.data[i]);
            data.push(value);
            i += 1;
        }
        GrayImage { width: self.width, height: self.height, data }
    }

    /// Halves the image by keeping every second pixel of every second row; a dimension of
    /// one pixel stays one pixel.
    pub fn downsample_by_2(&self) -> (result: Self)
        where
            P: Copy,
        requires
            self.spec_width() > 0,
            self.spec_height() > 0,
        ensures
            result.spec_width() == if self.spec_width() / 2 > 0 { self.spec_width() / 2 } else { 1 },
            result.spec_height() == if self.spec_height() / 2 > 0 { self.spec_height() / 2 } else { 1 },
            result@.len() == result.spec_width() * result.spec_height(),
            forall|x: int, y: int|
                0 <= x < result.spec_width() && 0 <= y < result.spec_height() ==> #[trigger] result.pixel(x, y)
                    == self.pixel(
                    if 2 * x < self.spec_width() - 1 { 2 * x } else { self.spec_width() - 1 },
                    if 2 * y < self.spec_height() - 1 { 2 * y } else { self.spec_height() - 1 },
                ),
    {
        let width = if self.width / 2 > 0 { self.width / 2 } else { 1 };
        let height = if self.height / 2 > 0 { self.height / 2 } else { 1 };
        proof {
            use_type_invariant(self);
            assert(width * height <= self.width * self.height) by (nonlinear_arith)
                requires width <= self.width, height <= self.height;
        }
        let mut data: Vec<P> = Vec::new();
        let mut y: usize = 0;
        while y < height
            invariant
                width > 0,
                y <= height,
                width <= self.spec_width(),
                height <= self.spec_height(),
                width * height <= self.spec_width() * self.spec_height(),
                data@.len() == y * width,
                forall|xx: int, yy: int|
                    0 <= xx < width && 0 <= yy < y ==> #[trigger] data@[pixel_index(width as int, xx, yy)]
                        == self.pixel(
                        if 2 * xx < self.spec_width() - 1 { 2 * xx } else { self.spec_width() - 1 },
                        if 2 * yy < self.spec_height() - 1 { 2 * yy } else { self.spec_height() - 1 },
                    ),
            decreases height - y,
        {
            let mut x: usize = 0;
            while x < width
                invariant
                    width > 0,
                    y < height,
                    x <= width,
                    width <= self.spec_width(),
                    height <= self.spec_height(),
                    data@.len() == y * width + x,
                    forall|xx: int, yy: int|
                        (0 <= xx < width && 0 <= yy < y) || (0 <= xx < x && yy == y) ==> #[trigger] data@[pixel_index(width as int, xx, yy)]
                            == self.pixel(
                            if 2 * xx < self.spec_width() - 1 { 2 * xx } else { self.spec_width() - 1 },
                            if 2 * yy < self.spec_height() - 1 { 2 * yy } else { self.spec_height() - 1 },
                        ),
                decreases width - x,
            {
                let sx = if x < (self.width - 1) / 2 + 1 && 2 * x < self.width - 1 { 2 * x } else { self.width - 1 };
                let sy = if y < (self.height - 1) / 2 + 1 && 2 * y < self.height - 1 { 2 * y } else { self.height - 1 };
                let value = self.get(sx, sy);
                let ghost before = data@;
                data.push(value);
                proof {
                    assert forall|xx: int, yy: int|
                        (0 <= xx < width && 0 <= yy < y) || (0 <= xx < x + 1 && yy == y) implies #[trigger] data@[pixel_index(width as int, xx, yy)]
                            == self.pixel(
                            if 2 * xx < self.spec_width() - 1 { 2 * xx } else { self.spec_width() - 1 },
                            if 2 * yy < self.spec_height() - 1 { 2 * yy } else { self.spec_height() - 1 },
                        ) by {
                        if yy < y {
                            lemma_pixel_index_bounds(width as int, y as int, xx, yy);
                            assert(data@[pixel_index(width as int, xx, yy)] == before[pixel_index(width as int, xx, yy)]);
                        } else if xx < x {
                            assert(data@[pixel_index(width as int, xx, yy)] == before[pixel_index(width as int, xx, yy)]);
                        } else {
                            assert(pixel_index(width as int, xx, yy) == before.len());
                        }
                    }
                }
                x += 1;
            }
            proof {
                assert((y + 1) * width == y * width + width) by (nonlinear_arith);
            }
            y += 1;
        }
        proof {
            assert(height * width == width * height) by (nonlinear_arith);
        }
        GrayImage { width, height, data }
    }
}

/// The 8-bit luminance conversion of a decoded image, as `image::DynamicImage::to_luma8`
/// computes it: its width, its height and its row-major raw buffer.
pub uninterp spec fn luma8_of(image: image::DynamicImage) -> (u32, u32, Seq<u8>);

/// Converts a decoded image to 8-bit luminance with `image::DynamicImage::to_luma8`, and
/// returns its width, height and raw buffer.
///
/// Trusted: the conversion depends on the image alone, so its result is named
/// `luma8_of(*image)`. The `image` crate builds every luminance buffer through
/// constructors that allocate, or check for, at least `width * height` one-channel
/// samples, so the raw buffer holds at least that many bytes. What the pixels are, and
/// how the dimensions relate to the source image, is not stated here: the source image
/// is opaque.
#[verifier::external_body]
fn luma8_parts(image: &image::DynamicImage) -> (parts: (u32, u32, Vec<u8>))
    ensures
        (parts.0, parts.1, parts.2@) == luma8_of(*image),
        parts.0 as int * parts.1 as int <= parts.2@.len(),
{
    let gray = image.to_luma8();
    let (width, height) = gray.dimensions();
    (width, height, gray.into_raw())
}

impl GrayImage<u8> {
    /// Converts a decoded `image` crate image to its 8-bit luminance image, in the
    /// dimensions of the converted image.
    ///
    /// The dimensions are not checked, so an empty source image gives an empty result.
    pub fn from_dynamic_image(image: &image::DynamicImage) -> (result: GrayImage<u8>)
        ensures
            result.spec_width() == luma8_of(*image).0,
            result.spec_height() == luma8_of(*image).1,
            result@ == luma8_of(*image).2,
    {
        let (width, height, data) = luma8_parts(image);
        GrayImage { width: width as usize, height: height as usize, data }
    }
}

} // verus!
