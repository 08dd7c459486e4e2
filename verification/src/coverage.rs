//! Rasterised icons.
use vstd::prelude::*;

verus! {

/// A rasterised icon: one alpha value per pixel of a square.
#[derive(Debug, PartialEq, Eq)]
pub struct Coverage {
    pub size: i32,
    /// Row-major, `size * size` values, 0 for untouched and 255 for solid.
    pub alpha: Vec<u8>,
}

impl Coverage {
    /// The alpha at a pixel: zero outside the square, and where the values run
    /// out.
    pub open spec fn alpha_at(&self, x: int, y: int) -> u8 {
        let i = y * self.size + x;
        if 0 <= x < self.size && 0 <= y < self.size && i < self.alpha@.len() {
            self.alpha@[i]
        } else {
            0
        }
    }

    #[must_use]
    pub fn at(&self, x: i32, y: i32) -> (alpha: u8)
        ensures
            alpha == self.alpha_at(x as int, y as int),
    {
        if x < 0 || y < 0 || x >= self.size || y >= self.size {
            return 0;
        }
        assert(0 <= y * self.size <= 0x7fff_ffff * 0x7fff_ffff) by (nonlinear_arith)
            requires
                0 <= y < self.size <= 0x7fff_ffff,
        ;
        let index: u64 = y as u64 * self.size as u64 + x as u64;
        if index < self.alpha.len() as u64 {
            self.alpha[index as usize]
        } else {
            0
        }
    }
}

impl Clone for Coverage {
    fn clone(&self) -> (copy: Self)
        ensures
            copy.size == self.size,
            copy.alpha@ == self.alpha@,
    {
        Coverage { size: self.size, alpha: self.alpha.clone() }
    }
}

} // verus!
