//! An RGB color with three independent 8-bit channels, compared for exact
//! equality only (the render pass uses it to suppress redundant escape codes).

use vstd::prelude::*;

verus! {

#[derive(Clone, Copy, Debug, PartialEq, Eq, Structural)]
pub struct ColorRGB {
    pub red: u8,
    pub green: u8,
    pub blue: u8,
}

impl ColorRGB {
    pub fn new(red: u8, green: u8, blue: u8) -> (c: ColorRGB)
        ensures
            c == (ColorRGB { red, green, blue }),
    {
        ColorRGB { red, green, blue }
    }

    /// The all-zero color, the fresh carry-over at the start of a render pass.
    pub fn black() -> (c: ColorRGB)
        ensures
            c == (ColorRGB { red: 0, green: 0, blue: 0 }),
    {
        ColorRGB { red: 0, green: 0, blue: 0 }
    }

    pub fn white() -> (c: ColorRGB)
        ensures
            c == (ColorRGB { red: 255, green: 255, blue: 255 }),
    {
        ColorRGB { red: 255, green: 255, blue: 255 }
    }

    #[inline(always)]
    pub fn r(&self) -> (v: u8)
        ensures
            v == self.red,
    {
        self.red
    }

    #[inline(always)]
    pub fn g(&self) -> (v: u8)
        ensures
            v == self.green,
    {
        self.green
    }

    #[inline(always)]
    pub fn b(&self) -> (v: u8)
        ensures
            v == self.blue,
    {
        self.blue
    }

    #[inline(always)]
    pub fn parts(&self) -> (v: (u8, u8, u8))
        ensures
            v == (self.red, self.green, self.blue),
    {
        (self.red, self.green, self.blue)
    }
}

} // verus!
