//! The pixel grid: an RGBA image buffer of the `image` crate, seen by the
//! verifier through its width, its height and the pixels it holds.

use vstd::prelude::*;

verus! {

/// A grid of RGBA pixels, held in an `image::RgbaImage`. The verifier does
/// not look inside the buffer: it knows a grid by `grid_width`, `grid_height`
/// and `grid_pixels`, of which the functions below that call into `image`
/// say what that crate's methods do, unproved.
#[verifier::external_body]
pub struct PixelGrid {
    inner: image::ImageBuffer<image::Rgba<u8>, Vec<u8>>,
}

/// The number of columns of a grid: what `ImageBuffer::width` returns.
pub uninterp spec fn grid_width(grid: PixelGrid) -> u32;

/// The number of rows of a grid: what `ImageBuffer::height` returns.
pub uninterp spec fn grid_height(grid: PixelGrid) -> u32;

/// The pixels of a grid, each as its four channels (red, green, blue, alpha),
/// keyed by column and row.
pub uninterp spec fn grid_pixels(grid: PixelGrid) -> Map<(int, int), [u8; 4]>;

/// Where the four channels of the pixel at column `x` of row `y` start in the
/// row-major byte buffer of an image `width` pixels wide.
pub open spec fn byte_offset(width: int, x: int, y: int) -> int {
    4 * (y * width + x)
}

/// Calls `ImageBuffer::from_raw`, which accepts a buffer that holds at least
/// four bytes for each of the `width * height` pixels and reads the pixels
/// from it row by row; a shorter buffer is refused.
#[verifier::external_body]
fn raw_to_grid(width: u32, height: u32, buf: Vec<u8>) -> (made: Option<PixelGrid>)
    ensures
        made.is_some() <==> 4 * (width as int) * (height as int) <= buf@.len(),
        made matches Some(grid) ==> {
            &&& grid_width(grid) == width
            &&& grid_height(grid) == height
            &&& forall|x: int, y: int|
                0 <= x < width && 0 <= y < height ==> (#[trigger] grid_pixels(grid)[(x, y)])@
                    == buf@.subrange(
                    byte_offset(width as int, x, y),
                    byte_offset(width as int, x, y) + 4,
                )
        },
{
    match image::ImageBuffer::from_raw(width, height, buf) {
        Some(inner) => Some(PixelGrid { inner }),
        None => None,
    }
}

/// Calls `ImageBuffer::into_raw`, which gives the byte buffer back: it holds
/// the pixels row by row, four bytes each.
#[verifier::external_body]
fn grid_to_raw(grid: PixelGrid) -> (buf: Vec<u8>)
    ensures
        buf@.len() >= 4 * grid_width(grid) * grid_height(grid),
        forall|x: int, y: int|
            0 <= x < grid_width(grid) && 0 <= y < grid_height(grid) ==> (#[trigger] grid_pixels(
                grid,
            )[(x, y)])@ == buf@.subrange(
                byte_offset(grid_width(grid) as int, x, y),
                byte_offset(grid_width(grid) as int, x, y) + 4,
            ),
{
    grid.inner.into_raw()
}

/// Calls `ImageBuffer::width`, which reads the width the buffer was made with.
#[verifier::external_body]
fn raw_width(grid: &PixelGrid) -> (w: u32)
    ensures
        w == grid_width(*grid),
{
    grid.inner.width()
}

/// Calls `ImageBuffer::height`, which reads the height the buffer was made with.
#[verifier::external_body]
fn raw_height(grid: &PixelGrid) -> (h: u32)
    ensures
        h == grid_height(*grid),
{
    grid.inner.height()
}

/// Calls `ImageBuffer::get_pixel`, which hands out the pixel stored at column
/// `x` of row `y` and panics outside the image; the channels are copied out.
#[verifier::external_body]
pub(crate) fn read_pixel(grid: &PixelGrid, x: u32, y: u32) -> (px: [u8; 4])
    requires
        x < grid_width(*grid),
        y < grid_height(*grid),
    ensures
        px == grid_pixels(*grid)[(x as int, y as int)],
{
    grid.inner.get_pixel(x, y).0
}

/// Calls `ImageBuffer::put_pixel`, which stores `px` at column `x` of row `y`
/// and panics outside the image; the other pixels and the size stay.
#[verifier::external_body]
pub(crate) fn write_pixel(grid: &mut PixelGrid, x: u32, y: u32, px: [u8; 4])
    requires
        x < grid_width(*old(grid)),
        y < grid_height(*old(grid)),
    ensures
        grid_width(*final(grid)) == grid_width(*old(grid)),
        grid_height(*final(grid)) == grid_height(*old(grid)),
        grid_pixels(*final(grid)) == grid_pixels(*old(grid)).insert((x as int, y as int), px),
{
    grid.inner.put_pixel(x, y, image::Rgba(px));
}

impl PixelGrid {
    /// The pixel at column `x` of row `y`.
    #[verifier::inline]
    pub open spec fn pixel_at(self, x: int, y: int) -> [u8; 4] {
        grid_pixels(self)[(x, y)]
    }

    /// Whether column `x` of row `y` lies inside the grid.
    pub open spec fn holds(self, x: int, y: int) -> bool {
        0 <= x < grid_width(self) && 0 <= y < grid_height(self)
    }

    /// Makes a grid from a row-major buffer of RGBA bytes. The buffer must
    /// hold at least four bytes for each pixel; a shorter one gives `None`.
    pub fn from_raw(width: u32, height: u32, buf: Vec<u8>) -> (made: Option<PixelGrid>)
        ensures
            made.is_some() <==> 4 * (width as int) * (height as int) <= buf@.len(),
            made matches Some(grid) ==> {
                &&& grid_width(grid) == width
                &&& grid_height(grid) == height
                &&& forall|x: int, y: int|
                    grid.holds(x, y) ==> (#[trigger] grid.pixel_at(x, y))@ == buf@.subrange(
                        byte_offset(width as int, x, y),
                        byte_offset(width as int, x, y) + 4,
                    )
            },
    {
        raw_to_grid(width, height, buf)
    }

    /// Gives the grid's row-major buffer of RGBA bytes back.
    pub fn into_raw(self) -> (buf: Vec<u8>)
        ensures
            buf@.len() >= 4 * grid_width(self) * grid_height(self),
            forall|x: int, y: int|
                self.holds(x, y) ==> (#[trigger] self.pixel_at(x, y))@ == buf@.subrange(
                    byte_offset(grid_width(self) as int, x, y),
                    byte_offset(grid_width(self) as int, x, y) + 4,
                ),
    {
        grid_to_raw(self)
    }

    /// The number of columns.
    pub fn width(&self) -> (w: u32)
        ensures
            w == grid_width(*self),
    {
        raw_width(self)
    }

    /// The number of rows.
    pub fn height(&self) -> (h: u32)
        ensures
            h == grid_height(*self),
    {
        raw_height(self)
    }

    /// The pixel at column `x` of row `y`, or `None` outside the grid.
    pub fn get_pixel(&self, x: u32, y: u32) -> (px: Option<[u8; 4]>)
        ensures
            px == if self.holds(x as int, y as int) {
                Some(self.pixel_at(x as int, y as int))
            } else {
                None
            },
    {
        if x < raw_width(self) && y < raw_height(self) {
            Some(read_pixel(self, x, y))
        } else {
            None
        }
    }
}

} // verus!
