//! Plain RGBA pixel values used by the kernel's graphics layer.

use vstd::prelude::*;

verus! {

/// One RGBA pixel, one byte per channel.
#[derive(Clone, Copy, PartialEq, Eq, Structural)]
pub struct Pixel {
    pub r: u8,
    pub g: u8,
    pub b: u8,
    pub a: u8,
}

impl Pixel {
    pub fn red() -> (p: Pixel)
        ensures
            p == (Pixel { r: 255, g: 0, b: 0, a: 255 }),
    {
        Pixel { r: 255, g: 0, b: 0, a: 255 }
    }

    pub fn green() -> (p: Pixel)
        ensures
            p == (Pixel { r: 0, g: 255, b: 0, a: 255 }),
    {
        Pixel { r: 0, g: 255, b: 0, a: 255 }
    }

    pub fn blue() -> (p: Pixel)
        ensures
            p == (Pixel { r: 0, g: 0, b: 255, a: 255 }),
    {
        Pixel { r: 0, g: 0, b: 255, a: 255 }
    }

    pub fn yellow() -> (p: Pixel)
        ensures
            p == (Pixel { r: 255, g: 255, b: 0, a: 255 }),
    {
        Pixel { r: 255, g: 255, b: 0, a: 255 }
    }

    pub fn grey() -> (p: Pixel)
        ensures
            p == (Pixel { r: 55, g: 55, b: 55, a: 255 }),
    {
        Pixel { r: 55, g: 55, b: 55, a: 255 }
    }

    pub fn white() -> (p: Pixel)
        ensures
            p == (Pixel { r: 255, g: 255, b: 255, a: 255 }),
    {
        Pixel { r: 255, g: 255, b: 255, a: 255 }
    }

    pub fn black() -> (p: Pixel)
        ensures
            p == (Pixel { r: 0, g: 0, b: 0, a: 255 }),
    {
        Pixel { r: 0, g: 0, b: 0, a: 255 }
    }

    pub fn shallow_grey() -> (p: Pixel)
        ensures
            p == (Pixel { r: 122, g: 122, b: 122, a: 255 }),
    {
        Pixel { r: 122, g: 122, b: 122, a: 255 }
    }
}

} // verus!
