//! The raw pixels that the encoders start from.

use vstd::prelude::*;

verus! {

/// A grid of 8-bit RGB pixels, row by row from the top, three bytes a pixel.
/// It is never empty, and it holds exactly the bytes of its pixels.
pub struct PixelBuffer {
    width: u32,
    height: u32,
    data: Vec<u8>,
}

/// Number of bytes that a grid of `width` by `height` RGB pixels takes.
pub open spec fn sample_count(width: u32, height: u32) -> int {
    3 * (width as int * height as int)
}

/// Offset of the first byte of the pixel in column `x` of row `y`.
pub open spec fn sample_offset(width: u32, x: u32, y: u32) -> int {
    3 * (y as int * width as int + x as int)
}

proof fn lemma_area_fits(width: u32, height: u32)
    ensures
        0 <= width as int * height as int <= 0xFFFF_FFFE_0000_0001,
        width >= 1 && height >= 1 ==> width as int * height as int >= 1,
{
    assert(0 <= width as int * height as int <= 0xFFFF_FFFF * 0xFFFF_FFFF) by (nonlinear_arith)
        requires
            0 <= width <= 0xFFFF_FFFF,
            0 <= height <= 0xFFFF_FFFF,
    ;
    assert(width >= 1 && height >= 1 ==> width as int * height as int >= 1) by (nonlinear_arith);
}

proof fn lemma_pixel_inside(width: u32, height: u32, x: u32, y: u32)
    requires
        x < width,
        y < height,
    ensures
        0 <= y as int * width as int,
        y as int * width as int + x as int + 1 <= width as int * height as int,
{
    assert(0 <= y as int * width as int && y as int * width as int + width as int <= width as int
        * height as int) by (nonlinear_arith)
        requires
            0 <= y < height,
            0 <= width,
    ;
}

impl PixelBuffer {
    #[verifier::type_invariant]
    spec fn well_formed(self) -> bool {
        &&& self.width >= 1
        &&& self.height >= 1
        &&& self.data@.len() == sample_count(self.width, self.height)
    }

    /// Pixels in a row.
    pub closed spec fn spec_width(self) -> u32 {
        self.width
    }

    /// Number of rows.
    pub closed spec fn spec_height(self) -> u32 {
        self.height
    }

    /// The bytes of all pixels.
    pub closed spec fn samples(self) -> Seq<u8> {
        self.data@
    }

    /// A black grid of `width` by `height` pixels, unless one side is zero
    /// or the bytes cannot be addressed.
    pub fn new(width: u32, height: u32) -> (made: Option<PixelBuffer>)
        ensures
            made is Some <==> width >= 1 && height >= 1 && sample_count(width, height)
                <= usize::MAX,
            made matches Some(p) ==> {
                &&& p.spec_width() == width
                &&& p.spec_height() == height
                &&& p.samples() == Seq::new(sample_count(width, height) as nat, |i: int| 0u8)
            },
    {
        proof {
            lemma_area_fits(width, height);
        }
        if width == 0 || height == 0 {
            return None;
        }
        let area: u64 = width as u64 * height as u64;
        if area > (usize::MAX / 3) as u64 {
            return None;
        }
        let count: usize = (area * 3) as usize;
        let data: Vec<u8> = vec![0u8; count];
        assert(data@ =~= Seq::new(sample_count(width, height) as nat, |i: int| 0u8));
        Some(PixelBuffer { width, height, data })
    }

    /// The grid of `width` by `height` pixels whose bytes are `data`, if
    /// neither side is zero and `data` has exactly the bytes of that many
    /// pixels.
    pub fn from_raw(width: u32, height: u32, data: Vec<u8>) -> (made: Option<PixelBuffer>)
        ensures
            made is Some <==> width >= 1 && height >= 1 && data@.len() == sample_count(
                width,
                height,
            ),
            made matches Some(p) ==> {
                &&& p.spec_width() == width
                &&& p.spec_height() == height
                &&& p.samples() == data@
            },
    {
        let length: usize = data.len();
        proof {
            lemma_area_fits(width, height);
        }
        if width == 0 || height == 0 {
            return None;
        }
        let area: u64 = width as u64 * height as u64;
        if area > (usize::MAX / 3) as u64 {
            return None;
        }
        if length != (area * 3) as usize {
            return None;
        }
        Some(PixelBuffer { width, height, data })
    }

    /// Pixels in a row.
    pub fn width(&self) -> (width: u32)
        ensures
            width == self.spec_width(),
            width >= 1,
    {
        proof {
            use_type_invariant(self);
        }
        self.width
    }

    /// Number of rows.
    pub fn height(&self) -> (height: u32)
        ensures
            height == self.spec_height(),
            height >= 1,
    {
        proof {
            use_type_invariant(self);
        }
        self.height
    }

    /// The bytes of all pixels: three for each pixel of the grid.
    pub fn as_bytes(&self) -> (bytes: &[u8])
        ensures
            bytes@ == self.samples(),
            bytes@.len() == sample_count(self.spec_width(), self.spec_height()),
    {
        proof {
            use_type_invariant(self);
        }
        self.data.as_slice()
    }

    /// Sets the pixel in column `x` of row `y` to the colour `rgb`.
    pub fn put_pixel(&mut self, x: u32, y: u32, rgb: [u8; 3])
        requires
            x < old(self).spec_width(),
            y < old(self).spec_height(),
        ensures
            final(self).spec_width() == old(self).spec_width(),
            final(self).spec_height() == old(self).spec_height(),
            final(self).samples() == crate::codec::overwrite(
                old(self).samples(),
                sample_offset(old(self).spec_width(), x, y),
                rgb@,
            ),
    {
        let length: usize = self.data.len();
        proof {
            use_type_invariant(&*self);
            lemma_pixel_inside(self.width, self.height, x, y);
            assert(3 * (y as int * self.width as int + x as int) + 3 <= length);
        }
        let at: usize = (y as usize * self.width as usize + x as usize) * 3;
        self.data[at] = rgb[0];
        self.data[at + 1] = rgb[1];
        self.data[at + 2] = rgb[2];
        assert(self.data@ =~= crate::codec::overwrite(
            old(self).data@,
            sample_offset(self.width, x, y),
            rgb@,
        ));
    }
}

} // verus!
