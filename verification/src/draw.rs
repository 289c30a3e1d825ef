//! Drawing into images of four bytes per pixel, stored row by row.

use vstd::prelude::*;

verus! {

/// A colour: red, green, blue and opacity.
#[derive(Debug, Clone, Copy, PartialEq, Eq, Structural)]
pub struct Rgba {
    pub r: u8,
    pub g: u8,
    pub b: u8,
    pub a: u8,
}

/// The place of the first byte of the pixel in column `x` of row `y`, in an
/// image of the given width.
pub open spec fn offset(width: u32, x: u32, y: u32) -> int {
    4 * (width * y + x)
}

/// The bytes of an image with one pixel set.
pub open spec fn with_pixel(data: Seq<u8>, at: int, color: Rgba) -> Seq<u8> {
    data.update(at, color.r).update(at + 1, color.g).update(at + 2, color.b).update(
        at + 3,
        color.a,
    )
}

/// An image to draw into.
pub struct ImageDraw {
    data: Vec<u8>,
    width: u32,
    height: u32,
}

impl View for ImageDraw {
    type V = Seq<u8>;

    /// The bytes of the image, four to a pixel, row after row.
    closed spec fn view(&self) -> Seq<u8> {
        self.data@
    }
}

impl ImageDraw {
    /// Number of pixels in a row.
    pub closed spec fn columns(self) -> u32 {
        self.width
    }

    /// Number of rows.
    pub closed spec fn rows(self) -> u32 {
        self.height
    }

    /// The image has four bytes for each of its pixels.
    pub open spec fn wf(self) -> bool {
        self@.len() == 4 * self.columns() * self.rows()
    }

    /// An image over the given bytes, if there are four of them for each
    /// pixel.
    pub fn new(data: Vec<u8>, width: u32, height: u32) -> (image: Option<ImageDraw>)
        ensures
            image is Some <==> data@.len() == 4 * width * height,
            image matches Some(image) ==> image@ == data@ && image.columns() == width
                && image.rows() == height && image.wf(),
    {
        assert(0 <= width * height <= 0xffff_ffff * 0xffff_ffff && 4 * (width * height) == 4
            * width * height) by (nonlinear_arith)
            requires
                0 <= width <= 0xffff_ffff,
                0 <= height <= 0xffff_ffff,
        ;
        let pixels: u64 = width as u64 * height as u64;
        let bytes: u128 = 4 * (pixels as u128);
        if data.len() as u128 == bytes {
            Some(ImageDraw { data, width, height })
        } else {
            None
        }
    }

    /// Sets the pixel in column `x` of row `y`.
    pub fn set_pixel(&mut self, x: u32, y: u32, color: Rgba)
        requires
            old(self).wf(),
            x < old(self).columns(),
            y < old(self).rows(),
        ensures
            final(self)@ == with_pixel(old(self)@, offset(old(self).columns(), x, y), color),
            final(self).columns() == old(self).columns(),
            final(self).rows() == old(self).rows(),
            final(self).wf(),
    {
        let ghost width = self.width as int;
        let ghost height = self.height as int;
        assert(0 <= width * y && width * y + x < width * height && 4 * (width * height) == 4
            * width * height) by (nonlinear_arith)
            requires
                0 <= x < width,
                0 <= y < height,
        ;
        assert(4 * (width * height) == self.data.len());
        let index: usize = 4 * (self.width as usize * y as usize + x as usize);
        self.data[index] = color.r;
        self.data[index + 1] = color.g;
        self.data[index + 2] = color.b;
        self.data[index + 3] = color.a;
    }

    /// The bytes of the image.
    pub fn data(&self) -> (data: &Vec<u8>)
        ensures
            data@ == self@,
    {
        &self.data
    }
}

/// A view of the map as an image.
pub struct MapView {
    image: ImageDraw,
}

impl MapView {
    /// The image, as a specification.
    pub closed spec fn picture(self) -> ImageDraw {
        self.image
    }

    /// A map view of the given size, all white and opaque.
    pub fn init(width: u32, height: u32) -> (view: MapView)
        requires
            4 * width * height <= usize::MAX,
        ensures
            view.picture().wf(),
            view.picture().columns() == width,
            view.picture().rows() == height,
            view.picture()@ == Seq::new((4 * width * height) as nat, |i: int| 255u8),
    {
        assert(width * height >= 0 && 4 * (width * height) == 4 * width * height)
            by (nonlinear_arith);
        let num_bytes: usize = 4 * (width as usize * height as usize);
        let mut data: Vec<u8> = Vec::with_capacity(num_bytes);
        let mut i: usize = 0;
        while i < num_bytes
            invariant
                i <= num_bytes,
                data@ == Seq::new(i as nat, |k: int| 255u8),
            decreases num_bytes - i,
        {
            data.push(255);
            i += 1;
            assert(data@ =~= Seq::new(i as nat, |k: int| 255u8));
        }
        MapView { image: ImageDraw { data, width, height } }
    }

    /// The image, for drawing into it.
    pub fn get_draw(&mut self) -> (image: &mut ImageDraw)
        ensures
            *image == old(self).picture(),
            final(self).picture() == *final(image),
    {
        &mut self.image
    }
}

} // verus!
