//! The pixel buffer of the `image` crate, as far as the image formatter needs
//! it. The contracts in this file are not proved here.

use vstd::prelude::*;

verus! {

/// A pixel: its red, green and blue part.
pub type Rgb = (u8, u8, u8);

/// An image buffer of the `image` crate with three bytes per pixel. Its
/// content is opaque here; [`buffer_rows`] names it.
#[verifier::external_body]
pub struct PixelBuffer {
    image: ::image::RgbImage,
}

/// The pixels of a buffer, row by row.
pub uninterp spec fn buffer_rows(buffer: PixelBuffer) -> Seq<Seq<Rgb>>;

/// Whether the rows make an image of the given size.
pub open spec fn rows_sized(rows: Seq<Seq<Rgb>>, width: int, height: int) -> bool {
    rows.len() == height && forall|y: int| 0 <= y < height ==> (#[trigger] rows[y]).len() == width
}

/// The bytes of the first `n` pixels of a row: red, green and blue of each.
pub open spec fn row_bytes(row: Seq<Rgb>, n: int) -> Seq<u8>
    decreases n,
{
    if n <= 0 {
        Seq::<u8>::empty()
    } else {
        row_bytes(row, n - 1) + seq![row[n - 1].0, row[n - 1].1, row[n - 1].2]
    }
}

/// The bytes of the first `n` rows of an image, row by row.
pub open spec fn raw_bytes(rows: Seq<Seq<Rgb>>, n: int) -> Seq<u8>
    decreases n,
{
    if n <= 0 {
        Seq::<u8>::empty()
    } else {
        raw_bytes(rows, n - 1) + row_bytes(rows[n - 1], rows[n - 1].len() as int)
    }
}

impl PixelBuffer {
    /// Calls `ImageBuffer::new`, which makes an image of the given size with
    /// every part of every pixel at zero. Sizes whose buffer does not fit into
    /// memory, on which the call panics, are excluded.
    #[verifier::external_body]
    pub(crate) fn blank(width: u32, height: u32) -> (r: PixelBuffer)
        requires
            3 * width * height <= isize::MAX,
        ensures
            rows_sized(buffer_rows(r), width as int, height as int),
            forall|x: int, y: int|
                0 <= x < width && 0 <= y < height ==> #[trigger] buffer_rows(r)[y][x] == (
                    0u8,
                    0u8,
                    0u8,
                ),
    {
        PixelBuffer { image: ::image::ImageBuffer::new(width, height) }
    }

    /// Calls `ImageBuffer::put_pixel`, which sets one pixel. A place outside
    /// of the image, on which the call panics, is excluded.
    #[verifier::external_body]
    pub(crate) fn paint(&mut self, x: u32, y: u32, color: Rgb)
        requires
            y < buffer_rows(*old(self)).len(),
            x < buffer_rows(*old(self))[y as int].len(),
        ensures
            buffer_rows(*final(self)) == buffer_rows(*old(self)).update(
                y as int,
                buffer_rows(*old(self))[y as int].update(x as int, color),
            ),
    {
        self.image.put_pixel(x, y, ::image::Rgb([color.0, color.1, color.2]))
    }

    /// Calls `ImageBuffer::into_raw`, which hands out the bytes of the image:
    /// row by row, and for each pixel its red, green and blue part.
    #[verifier::external_body]
    pub(crate) fn into_raw(self) -> (r: Vec<u8>)
        ensures
            r@ == raw_bytes(buffer_rows(self), buffer_rows(self).len() as int),
    {
        self.image.into_raw()
    }
}

} // verus!
