use vstd::prelude::*;

verus! {

/// Why a heightmap cannot be preprocessed.
#[derive(Debug, Clone, Copy, PartialEq, Eq, Structural)]
pub enum RtinError {
    /// The grid is not square.
    InvalidShape,
    /// The side `s` is below 3, or `s - 1` is not a power of two.
    InvalidSize,
    /// The side is beyond what 32-bit triangle indices can address.
    TooLarge,
    /// The image bytes could not be decoded.
    ImageDecode,
}

/// A 16-bit greyscale grid, row-major: the value at `(x, y)` sits at offset
/// `y * width + x`.
#[derive(Debug, Clone)]
pub struct Heightmap {
    pub width: u32,
    pub height: u32,
    pub pixels: Vec<u16>,
}

impl Heightmap {
    pub open spec fn wf(&self) -> bool {
        self.pixels@.len() == self.width * self.height
    }

    /// The height at `(x, y)`.
    pub open spec fn pixel(&self, x: int, y: int) -> u16 {
        self.pixels@[y * self.width + x]
    }

    /// A grid from its first `width * height` values; `None` when `buf` holds
    /// fewer.
    pub fn from_vec(width: u32, height: u32, buf: Vec<u16>) -> (r: Option<Heightmap>)
        ensures
            r is Some <==> width * height <= buf@.len(),
            r matches Some(h) ==> h.width == width && h.height == height && h.pixels@
                == buf@.take(width * height) && h.wf(),
    {
        let available = buf.len();
        let len = (width as usize).checked_mul(height as usize);
        if let Some(n) = len {
            if n <= available {
                let ghost original = buf@;
                let mut pixels = buf;
                pixels.truncate(n);
                proof {
                    assert(pixels@ =~= original.take(width * height));
                }
                return Some(Heightmap { width, height, pixels });
            }
        }
        None
    }

    pub fn dimensions(&self) -> (r: (u32, u32))
        ensures
            r == (self.width, self.height),
    {
        (self.width, self.height)
    }

    /// The height at `(x, y)`.
    pub fn get_pixel(&self, x: u32, y: u32) -> (r: u16)
        requires
            self.wf(),
            x < self.width,
            y < self.height,
        ensures
            r == self.pixel(x as int, y as int),
    {
        let n = self.pixels.len();
        proof {
            lemma_grid_offset(x as int, y as int, self.width as int, self.height as int);
        }
        self.pixels[y as usize * self.width as usize + x as usize]
    }
}

/// `y * w + x` addresses a cell of a `w` by `h` grid.
pub proof fn lemma_grid_offset(x: int, y: int, w: int, h: int)
    requires
        0 <= x < w,
        0 <= y < h,
    ensures
        0 <= y * w + x < w * h,
        y * w <= y * w + x,
{
    assert(0 <= y * w + x < w * h) by (nonlinear_arith)
        requires
            0 <= x < w,
            0 <= y < h,
    ;
}

} // verus!
