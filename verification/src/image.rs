//! Pixel buffers and extraction of rectangular sub-regions.
//!
//! A [`PixelBuffer`] is one packed image: a contiguous, row-major byte
//! buffer together with its pixel extent, the byte size of one pixel and a
//! layer count. [`extract_rectangle`] copies one rectangle out of such a
//! buffer into a new, tightly packed buffer, and
//! [`split_image_by_rectangles`] applies it to a whole list of rectangles in
//! order.

use vstd::prelude::*;
use crate::rect::Rect;

verus! {

/// Mathematical model of a [`PixelBuffer`]: the same fields, with the byte
/// buffer as a sequence.
pub ghost struct PixelBufferView {
    pub width: nat,
    pub height: nat,
    pub pixel_size: nat,
    pub depth: nat,
    pub data: Seq<u8>,
}

/// One packed image: `width * height` pixels of `pixel_size` bytes each, in
/// `depth` array layers, stored row-major and top-to-bottom in `data` with no
/// padding between rows.
#[derive(Debug)]
pub struct PixelBuffer {
    pub width: usize,
    pub height: usize,
    pub pixel_size: usize,
    pub depth: usize,
    pub data: Vec<u8>,
}

impl View for PixelBuffer {
    type V = PixelBufferView;

    open spec fn view(&self) -> PixelBufferView {
        PixelBufferView {
            width: self.width as nat,
            height: self.height as nat,
            pixel_size: self.pixel_size as nat,
            depth: self.depth as nat,
            data: self.data@,
        }
    }
}

impl PixelBufferView {
    /// The buffer holds exactly the bytes its dimensions call for.
    pub open spec fn wf(self) -> bool {
        self.data.len() == self.width * self.height * self.pixel_size * self.depth
    }
}

impl PixelBuffer {
    /// The buffer holds exactly the bytes its dimensions call for.
    pub open spec fn wf(self) -> bool {
        self@.wf()
    }

    pub fn new(width: usize, height: usize, pixel_size: usize, depth: usize, data: Vec<u8>) -> (r: PixelBuffer)
        requires
            data@.len() == width * height * pixel_size * depth,
        ensures
            r@ == (PixelBufferView {
                width: width as nat,
                height: height as nat,
                pixel_size: pixel_size as nat,
                depth: depth as nat,
                data: data@,
            }),
            r.wf(),
    {
        PixelBuffer { width, height, pixel_size, depth, data }
    }
}

/// The bytes of `rect` copied out of `data`, a row-major buffer whose rows
/// are `data_width` bytes wide and whose pixels are `pixel_width` bytes each.
/// Byte `y * rect.width * pixel_width + k` of the result is byte
/// `(rect.y + y) * data_width + rect.x * pixel_width + k` of the source: the
/// result's own row stride is `rect.width * pixel_width`, with no gaps.
pub open spec fn extracted_bytes(data: Seq<u8>, rect: Rect, data_width: int, pixel_width: int) -> Seq<u8> {
    Seq::new(
        (rect.width * rect.height * pixel_width) as nat,
        |n: int|
            data[(rect.y + n / (rect.width * pixel_width)) * data_width + rect.x * pixel_width + n % (
            rect.width * pixel_width)],
    )
}

/// Extraction is correct pixel for pixel: byte `b` of the extracted pixel at
/// local coordinate `(i, j)` is byte `b` of the source pixel at
/// `(rect.x + i, rect.y + j)`, for every `i < rect.width`,
/// `j < rect.height` and `b < pixel_width`.
pub proof fn lemma_extracted_pixel(
    data: Seq<u8>,
    rect: Rect,
    data_width: int,
    pixel_width: int,
    i: int,
    j: int,
    b: int,
)
    requires
        0 <= i < rect.width,
        0 <= j < rect.height,
        0 <= b < pixel_width,
    ensures
        extracted_bytes(data, rect, data_width, pixel_width)[(j * rect.width + i) * pixel_width + b]
            == data[(rect.y + j) * data_width + (rect.x + i) * pixel_width + b],
{
    let row = rect.width * pixel_width;
    let n = (j * rect.width + i) * pixel_width + b;
    assert(n == j * row + (i * pixel_width + b) && 0 <= i * pixel_width + b < row && 0 <= n < rect.width
        * rect.height * pixel_width) by (nonlinear_arith)
        requires
            0 <= i < rect.width,
            0 <= j < rect.height,
            0 <= b < pixel_width,
            row == rect.width * pixel_width,
            n == (j * rect.width + i) * pixel_width + b,
    ;
    vstd::arithmetic::div_mod::lemma_fundamental_div_mod_converse(n, row, j, i * pixel_width + b);
    assert(rect.x * pixel_width + (i * pixel_width + b) == (rect.x + i) * pixel_width + b)
        by (nonlinear_arith);
}

/// Copy the bytes of `rect` out of `data` into a new, tightly packed buffer.
///
/// `data_width` is the byte width of one full source row (the stride);
/// `pixel_width` is the byte size of one pixel. The rectangle must lie within
/// one row (`rect.x + rect.width` pixels fit in the stride) and within the
/// buffer; an out-of-bounds rectangle is a caller error, ruled out here
/// rather than read past.
pub fn extract_rectangle(data: &Vec<u8>, rect: Rect, data_width: usize, pixel_width: usize) -> (extracted: Vec<u8>)
    requires
        rect.x * pixel_width + rect.width * pixel_width <= data_width,
        (rect.y + rect.height) * data_width <= data@.len(),
        rect.y + rect.height <= usize::MAX,
    ensures
        extracted@ == extracted_bytes(data@, rect, data_width as int, pixel_width as int),
        extracted@.len() == rect.width * rect.height * pixel_width,
{
    let ghost eb = extracted_bytes(data@, rect, data_width as int, pixel_width as int);
    let data_len: usize = data.len();
    proof {
        assert(rect.width * pixel_width <= data_width) by (nonlinear_arith)
            requires
                rect.x * pixel_width + rect.width * pixel_width <= data_width,
                rect.x >= 0,
                pixel_width >= 0,
        ;
    }
    let row_bytes: usize = rect.width * pixel_width;
    let mut extracted: Vec<u8> = Vec::new();
    let mut y: usize = 0;
    while y < rect.height
        invariant
            y <= rect.height,
            data_len == data@.len(),
            rect.y + rect.height <= usize::MAX,
            rect.x * pixel_width + row_bytes <= data_width,
            (rect.y + rect.height) * data_width <= data@.len(),
            row_bytes == rect.width * pixel_width,
            eb == extracted_bytes(data@, rect, data_width as int, pixel_width as int),
            eb.len() == rect.width * rect.height * pixel_width,
            extracted@.len() == y * row_bytes,
            forall|n: int| 0 <= n < extracted@.len() ==> extracted@[n] == eb[n],
        decreases rect.height - y,
    {
        proof {
            assert((rect.y + y + 1) * data_width <= (rect.y + rect.height) * data_width)
                by (nonlinear_arith)
                requires
                    y < rect.height,
                    data_width >= 0,
            ;
            assert((rect.y + y) * data_width + data_width == (rect.y + y + 1) * data_width)
                by (nonlinear_arith);
        }
        let start: usize = (rect.y + y) * data_width + rect.x * pixel_width;
        let mut k: usize = 0;
        while k < row_bytes
            invariant
                k <= row_bytes,
                y < rect.height,
                data_len == data@.len(),
                rect.y + rect.height <= usize::MAX,
                start == (rect.y + y) * data_width + rect.x * pixel_width,
                start + row_bytes <= data@.len(),
                rect.x * pixel_width + row_bytes <= data_width,
                (rect.y + rect.height) * data_width <= data@.len(),
                row_bytes == rect.width * pixel_width,
                eb == extracted_bytes(data@, rect, data_width as int, pixel_width as int),
                eb.len() == rect.width * rect.height * pixel_width,
                extracted@.len() == y * row_bytes + k,
                forall|n: int| 0 <= n < extracted@.len() ==> extracted@[n] == eb[n],
            decreases row_bytes - k,
        {
            let b = data[start + k];
            proof {
                let n = y * row_bytes + k;
                assert(n < eb.len() && y * row_bytes + row_bytes <= eb.len()) by (nonlinear_arith)
                    requires
                        y < rect.height,
                        k < row_bytes,
                        row_bytes == rect.width * pixel_width,
                        eb.len() == rect.width * rect.height * pixel_width,
                        n == y * row_bytes + k,
                ;
                vstd::arithmetic::div_mod::lemma_fundamental_div_mod_converse(
                    n as int,
                    row_bytes as int,
                    y as int,
                    k as int,
                );
                assert(eb[n as int] == data@[(rect.y + y) * data_width + rect.x * pixel_width
                    + k]);
            }
            extracted.push(b);
            k = k + 1;
        }
        proof {
            assert(y * row_bytes + row_bytes == (y + 1) * row_bytes) by (nonlinear_arith);
        }
        y = y + 1;
    }
    proof {
        assert(y * row_bytes == rect.height * (rect.width * pixel_width)) by (nonlinear_arith)
            requires
                y == rect.height,
                row_bytes == rect.width * pixel_width,
        ;
        assert(rect.height * (rect.width * pixel_width) == rect.width * rect.height * pixel_width)
            by (nonlinear_arith);
        assert(extracted@ =~= eb);
    }
    extracted
}

/// Model of extracting `rect` from a whole buffer: the spatial extent
/// becomes the rectangle's, the format metadata is copied unchanged, and the
/// bytes are the tightly packed bytes of the rectangle.
pub open spec fn extract_view(src: PixelBufferView, rect: Rect) -> PixelBufferView {
    PixelBufferView {
        width: rect.width as nat,
        height: rect.height as nat,
        pixel_size: src.pixel_size,
        depth: src.depth,
        data: extracted_bytes(
            src.data,
            rect,
            (src.width * src.pixel_size) as int,
            src.pixel_size as int,
        ),
    }
}

/// Split an image into one new, tightly packed sub-image per rectangle, in
/// the order the rectangles are given.
///
/// Every rectangle must lie within the image's extent; an out-of-bounds
/// rectangle is a caller error and is ruled out here. Multi-layer sources
/// are not sliceable: slicing reads one row-strided layer.
pub fn split_image_by_rectangles(image: &PixelBuffer, rectangles: &Vec<Rect>) -> (sub_images: Vec<
    PixelBuffer,
>)
    requires
        image.wf(),
        image.depth == 1,
        image.width * image.pixel_size <= usize::MAX,
        forall|i: int|
            0 <= i < rectangles@.len() ==> (#[trigger] rectangles@[i]).in_bounds(
                image@.width,
                image@.height,
            ),
    ensures
        sub_images@.len() == rectangles@.len(),
        forall|i: int|
            0 <= i < rectangles@.len() ==> (#[trigger] sub_images@[i])@ == extract_view(
                image@,
                rectangles@[i],
            ),
        forall|i: int| 0 <= i < rectangles@.len() ==> (#[trigger] sub_images@[i]).wf(),
{
    let data_width: usize = image.width * image.pixel_size;
    let mut sub_images: Vec<PixelBuffer> = Vec::new();
    let mut i: usize = 0;
    while i < rectangles.len()
        invariant
            i <= rectangles@.len(),
            image.wf(),
            image.depth == 1,
            data_width == image.width * image.pixel_size,
            forall|j: int|
                0 <= j < rectangles@.len() ==> (#[trigger] rectangles@[j]).in_bounds(
                    image@.width,
                    image@.height,
                ),
            sub_images@.len() == i,
            forall|j: int|
                0 <= j < i ==> (#[trigger] sub_images@[j])@ == extract_view(
                    image@,
                    rectangles@[j],
                ),
            forall|j: int| 0 <= j < i ==> (#[trigger] sub_images@[j]).wf(),
        decreases rectangles@.len() - i,
    {
        let rect = rectangles[i];
        proof {
            assert(rect.x * image.pixel_size + rect.width * image.pixel_size <= data_width)
                by (nonlinear_arith)
                requires
                    rect.x + rect.width <= image.width,
                    image.pixel_size >= 0,
                    data_width == image.width * image.pixel_size,
            ;
            assert((rect.y + rect.height) * data_width <= image@.data.len()) by (nonlinear_arith)
                requires
                    rect.y + rect.height <= image.height,
                    data_width == image.width * image.pixel_size,
                    image@.data.len() == image.width * image.height * image.pixel_size
                        * image.depth,
                    image.depth == 1,
                    data_width >= 0,
            ;
        }
        let data = extract_rectangle(&image.data, rect, data_width, image.pixel_size);
        let sub = PixelBuffer {
            width: rect.width,
            height: rect.height,
            pixel_size: image.pixel_size,
            depth: image.depth,
            data,
        };
        proof {
            assert(sub.wf()) by (nonlinear_arith)
                requires
                    sub@.data.len() == sub.width * sub.height * sub.pixel_size,
                    sub.depth == 1,
            ;
        }
        sub_images.push(sub);
        i = i + 1;
    }
    sub_images
}

/// Byte-for-byte copy of a byte vector.
fn clone_bytes(v: &Vec<u8>) -> (r: Vec<u8>)
    ensures
        r@ == v@,
{
    let mut r: Vec<u8> = Vec::new();
    let mut i: usize = 0;
    while i < v.len()
        invariant
            i <= v@.len(),
            r@ == v@.take(i as int),
        decreases v@.len() - i,
    {
        r.push(v[i]);
        proof {
            assert(r@ =~= v@.take(i + 1));
        }
        i = i + 1;
    }
    proof {
        assert(v@.take(v@.len() as int) =~= v@);
    }
    r
}

impl Clone for PixelBuffer {
    /// An independent buffer with the same dimensions, format and bytes.
    fn clone(&self) -> (r: Self)
        ensures
            r@ == self@,
    {
        PixelBuffer {
            width: self.width,
            height: self.height,
            pixel_size: self.pixel_size,
            depth: self.depth,
            data: clone_bytes(&self.data),
        }
    }
}

} // verus!
