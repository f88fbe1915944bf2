//! The pixel buffer that a render pass fills.

use vstd::prelude::*;
use crate::color::Rgb;

verus! {

/// Bytes that one pixel takes in the buffer: red, green, blue and one byte
/// of padding that is never written.
pub const BYTES_PER_PIXEL: usize = 4;

/// The position in the buffer of the first byte of pixel (`x`, `y`) in a
/// grid of `height` rows: the pixels of one column lie side by side.
pub open spec fn pixel_offset(x: int, y: int, height: int) -> int {
    4 * (x * height + y)
}

/// Whether a grid of the given size has a buffer that can be addressed.
pub open spec fn addressable(width: int, height: int) -> bool {
    4 * (width * height) <= usize::MAX
}

/// A dense grid of colours, `width` by `height` pixels.
pub struct PixelArrayBuffer {
    buffer: Vec<u8>,
    width: usize,
    height: usize,
}

/// The offsets of distinct pixels of one grid are in range and at least
/// four bytes apart.
pub proof fn lemma_pixel_offset(x: int, y: int, width: int, height: int)
    requires
        0 <= x < width,
        0 <= y < height,
    ensures
        0 <= pixel_offset(x, y, height),
        pixel_offset(x, y, height) + 4 <= 4 * (width * height),
        0 <= x * height,
        x * height + y < width * height,
{
    assert(0 <= x * height && x * height + height <= width * height) by (nonlinear_arith)
        requires
            0 <= x < width,
            0 < height,
    ;
}

/// Pixels at different places have different offsets.
pub proof fn lemma_pixel_offset_injective(x1: int, y1: int, x2: int, y2: int, height: int)
    requires
        0 <= y1 < height,
        0 <= y2 < height,
        x1 != x2 || y1 != y2,
    ensures
        pixel_offset(x1, y1, height) + 4 <= pixel_offset(x2, y2, height) || pixel_offset(
            x2,
            y2,
            height,
        ) + 4 <= pixel_offset(x1, y1, height),
{
    if x1 < x2 {
        assert(x1 * height + height <= x2 * height) by (nonlinear_arith)
            requires
                x1 < x2,
                0 < height,
        ;
    } else if x2 < x1 {
        assert(x2 * height + height <= x1 * height) by (nonlinear_arith)
            requires
                x2 < x1,
                0 < height,
        ;
    }
}

impl PixelArrayBuffer {
    #[verifier::type_invariant]
    spec fn well_formed(self) -> bool {
        self.buffer@.len() == 4 * (self.width * self.height)
    }

    /// The number of columns.
    pub closed spec fn spec_width(&self) -> usize {
        self.width
    }

    /// The number of rows.
    pub closed spec fn spec_height(&self) -> usize {
        self.height
    }

    /// The bytes of the buffer, four to a pixel.
    pub closed spec fn bytes(&self) -> Seq<u8> {
        self.buffer@
    }

    /// The colour held for pixel (`x`, `y`).
    pub open spec fn pixel(&self, x: int, y: int) -> Rgb
        recommends
            0 <= x < self.spec_width(),
            0 <= y < self.spec_height(),
    {
        let at = pixel_offset(x, y, self.spec_height() as int);
        Rgb { red: self.bytes()[at], green: self.bytes()[at + 1], blue: self.bytes()[at + 2] }
    }

    /// The padding byte of pixel (`x`, `y`).
    pub open spec fn padding(&self, x: int, y: int) -> u8
        recommends
            0 <= x < self.spec_width(),
            0 <= y < self.spec_height(),
    {
        self.bytes()[pixel_offset(x, y, self.spec_height() as int) + 3]
    }

    /// Whether the buffer is as `with_size` made it: every pixel black,
    /// every padding byte zero.
    pub open spec fn is_blank(&self) -> bool {
        self.bytes() == Seq::new(
            (4 * (self.spec_width() * self.spec_height())) as nat,
            |i: int| 0u8,
        )
    }

    /// A buffer for `width` by `height` pixels, every byte zero.
    pub fn with_size(width: usize, height: usize) -> (buf: PixelArrayBuffer)
        requires
            addressable(width as int, height as int),
        ensures
            buf.spec_width() == width,
            buf.spec_height() == height,
            buf.is_blank(),
    {
        assert(width * height <= usize::MAX) by (nonlinear_arith)
            requires
                4 * (width * height) <= usize::MAX,
                0 <= width * height,
        ;
        let len: usize = 4 * (width * height);
        let buffer: Vec<u8> = vec![0u8; len];
        assert(buffer@ =~= Seq::new((4 * (width * height)) as nat, |i: int| 0u8));
        PixelArrayBuffer { buffer, width, height }
    }

    /// As `with_size`, or `None` where the grid is too large to address.
    pub fn try_with_size(width: usize, height: usize) -> (res: Option<PixelArrayBuffer>)
        ensures
            res.is_some() <==> addressable(width as int, height as int),
            res.is_some() ==> {
                let buf = res.unwrap();
                &&& buf.spec_width() == width
                &&& buf.spec_height() == height
                &&& buf.is_blank()
            },
    {
        match width.checked_mul(height) {
            Some(count) => match count.checked_mul(BYTES_PER_PIXEL) {
                Some(_) => Some(PixelArrayBuffer::with_size(width, height)),
                None => None,
            },
            None => {
                assert(0 <= width * height) by (nonlinear_arith)
                    requires
                        0 <= width,
                        0 <= height,
                ;
                None
            },
        }
    }

    #[verifier::when_used_as_spec(spec_width)]
    pub fn width(&self) -> (w: usize)
        ensures
            w == self.spec_width(),
    {
        self.width
    }

    #[verifier::when_used_as_spec(spec_height)]
    pub fn height(&self) -> (h: usize)
        ensures
            h == self.spec_height(),
    {
        self.height
    }

    /// The colour of pixel (`x`, `y`).
    pub fn at(&self, x: usize, y: usize) -> (c: Rgb)
        requires
            x < self.spec_width(),
            y < self.spec_height(),
        ensures
            c == self.pixel(x as int, y as int),
    {
        proof {
            use_type_invariant(self);
            lemma_pixel_offset(x as int, y as int, self.width as int, self.height as int);
        }
        assert(self.buffer.len() == 4 * (self.width * self.height));
        let color_index: usize = 4 * (x * self.height + y);
        Rgb {
            red: self.buffer[color_index],
            green: self.buffer[color_index + 1],
            blue: self.buffer[color_index + 2],
        }
    }

    /// The raw bytes, for a sink that takes four bytes per pixel.
    pub fn get(&self) -> (raw: &[u8])
        ensures
            raw@ == self.bytes(),
            raw@.len() == 4 * (self.spec_width() * self.spec_height()),
    {
        proof {
            use_type_invariant(self);
        }
        self.buffer.as_slice()
    }

    /// Writes `color` to pixel (`x`, `y`); the pixel's padding byte and
    /// every other pixel stay as they were.
    pub fn set(&mut self, x: usize, y: usize, color: &Rgb)
        requires
            x < old(self).spec_width(),
            y < old(self).spec_height(),
        ensures
            final(self).spec_width() == old(self).spec_width(),
            final(self).spec_height() == old(self).spec_height(),
            final(self).bytes() == old(self).bytes().update(
                pixel_offset(x as int, y as int, old(self).spec_height() as int),
                color.red,
            ).update(
                pixel_offset(x as int, y as int, old(self).spec_height() as int) + 1,
                color.green,
            ).update(
                pixel_offset(x as int, y as int, old(self).spec_height() as int) + 2,
                color.blue,
            ),
            final(self).bytes().len() == old(self).bytes().len(),
            final(self).pixel(x as int, y as int) == *color,
            forall|u: int, v: int|
                0 <= u < old(self).spec_width() && 0 <= v < old(self).spec_height() && (u != x
                    || v != y) ==> #[trigger] final(self).pixel(u, v) == old(self).pixel(u, v),
            forall|u: int, v: int|
                0 <= u < old(self).spec_width() && 0 <= v < old(self).spec_height()
                    ==> #[trigger] final(self).padding(u, v) == old(self).padding(u, v),
    {
        proof {
            use_type_invariant(&*self);
            lemma_pixel_offset(x as int, y as int, self.width as int, self.height as int);
        }
        let ghost before = *self;
        assert(self.buffer.len() == 4 * (self.width * self.height));
        let color_index: usize = 4 * (x * self.height + y);
        self.buffer[color_index] = color.red;
        self.buffer[color_index + 1] = color.green;
        self.buffer[color_index + 2] = color.blue;
        proof {
            Self::lemma_set_pixels(&before, &*self, x as int, y as int, *color);
        }
    }

    /// Three bytes written at a pixel's offset change that pixel and no
    /// other.
    proof fn lemma_set_pixels(before: &Self, after: &Self, x: int, y: int, color: Rgb)
        requires
            before.bytes().len() == 4 * (before.spec_width() * before.spec_height()),
            0 <= x < before.spec_width(),
            0 <= y < before.spec_height(),
            after.spec_width() == before.spec_width(),
            after.spec_height() == before.spec_height(),
            after.bytes() == before.bytes().update(
                pixel_offset(x, y, before.spec_height() as int),
                color.red,
            ).update(pixel_offset(x, y, before.spec_height() as int) + 1, color.green).update(
                pixel_offset(x, y, before.spec_height() as int) + 2,
                color.blue,
            ),
        ensures
            after.pixel(x, y) == color,
            forall|u: int, v: int|
                0 <= u < before.spec_width() && 0 <= v < before.spec_height() && (u != x || v
                    != y) ==> #[trigger] after.pixel(u, v) == before.pixel(u, v),
            forall|u: int, v: int|
                0 <= u < before.spec_width() && 0 <= v < before.spec_height()
                    ==> #[trigger] after.padding(u, v) == before.padding(u, v),
    {
        let h = before.spec_height() as int;
        let w = before.spec_width() as int;
        lemma_pixel_offset(x, y, w, h);
        assert forall|u: int, v: int|
            0 <= u < w && 0 <= v < h && (u != x || v != y) implies #[trigger] after.pixel(u, v)
            == before.pixel(u, v) by {
            lemma_pixel_offset(u, v, w, h);
            lemma_pixel_offset_injective(u, v, x, y, h);
        }
        assert forall|u: int, v: int| 0 <= u < w && 0 <= v < h implies #[trigger] after.padding(
            u,
            v,
        ) == before.padding(u, v) by {
            lemma_pixel_offset(u, v, w, h);
            if u != x || v != y {
                lemma_pixel_offset_injective(u, v, x, y, h);
            }
        }
    }
}

} // verus!
