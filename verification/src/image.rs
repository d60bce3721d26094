//! The pixel buffer: a flat, row-major grid of RGB pixels.

use vstd::prelude::*;

verus! {

/// One RGB pixel: three 8-bit channels.
#[derive(Clone, Copy, Debug, PartialEq, Eq, Structural)]
pub struct Pixel {
    pub red: u8,
    pub green: u8,
    pub blue: u8,
}

impl Pixel {
    /// The all-zero pixel, used as the background of freshly remapped buffers.
    pub open spec fn black_spec() -> Pixel {
        Pixel { red: 0, green: 0, blue: 0 }
    }

    pub fn black() -> (p: Pixel)
        ensures
            p == Pixel::black_spec(),
    {
        Pixel { red: 0, green: 0, blue: 0 }
    }
}

/// A raster image: `width * height` pixels stored row-major, so the pixel at
/// column `x`, row `y` sits at flat index `y * width + x`.
#[derive(Debug, PartialEq, Eq)]
pub struct Screen {
    pub pixels: Vec<Pixel>,
    pub width: usize,
    pub height: usize,
}

impl Screen {
    /// Well-formed: the flat vector holds exactly one pixel per grid cell.
    pub open spec fn wf(self) -> bool {
        self.pixels@.len() == self.width * self.height
    }

    /// The pixel at column `x`, row `y`.
    pub open spec fn pix(self, x: int, y: int) -> Pixel {
        self.pixels@[y * self.width + x]
    }

    /// A buffer of the given dimensions with every pixel set to `fill`.
    pub fn new(width: usize, height: usize, fill: Pixel) -> (s: Screen)
        requires
            width * height <= usize::MAX,
        ensures
            s.wf(),
            s.width == width,
            s.height == height,
            forall|k: int| 0 <= k < s.pixels@.len() ==> s.pixels@[k] == fill,
    {
        let n = width * height;
        let mut pixels: Vec<Pixel> = Vec::new();
        let mut i: usize = 0;
        while i < n
            invariant
                i <= n,
                pixels@.len() == i,
                forall|k: int| 0 <= k < i ==> pixels@[k] == fill,
            decreases n - i,
        {
            pixels.push(fill);
            i = i + 1;
        }
        Screen { pixels, width, height }
    }
}

/// Distinct in-range (x, y) cells have distinct flat indices `y * width + x`,
/// and the flat index stays inside a `width * height` buffer.
pub proof fn lemma_flat_index(width: int, height: int, x: int, y: int)
    requires
        0 <= x < width,
        0 <= y < height,
    ensures
        0 <= y * width + x < width * height,
        (y * width + x) % width == x,
        (y * width + x) / width == y,
{
    assert(0 <= y * width + x < width * height) by (nonlinear_arith)
        requires
            0 <= x < width,
            0 <= y < height,
    ;
    vstd::arithmetic::div_mod::lemma_fundamental_div_mod_converse(y * width + x, width, y, x);
}

} // verus!
