use vstd::prelude::*;

verus! {

/// A 24-bit color, RGB.
#[derive(Copy, Clone, Debug, Default, PartialEq, Eq, Structural, Hash)]
pub struct Color {
    pub r: u8,
    pub g: u8,
    pub b: u8,
}

impl Color {
    /// Instantiate a new Color.
    pub fn new(r: u8, g: u8, b: u8) -> (c: Self)
        ensures
            c == (Color { r, g, b }),
    {
        Self { r, g, b }
    }

    pub fn white() -> (c: Self)
        ensures
            c == (Color { r: 255u8, g: 255u8, b: 255u8 }),
    {
        Self::new(255, 255, 255)
    }

    pub fn black() -> (c: Self)
        ensures
            c == (Color { r: 0u8, g: 0u8, b: 0u8 }),
    {
        Self::new(0, 0, 0)
    }

    pub fn red() -> (c: Self)
        ensures
            c == (Color { r: 255u8, g: 0u8, b: 0u8 }),
    {
        Self::new(255, 0, 0)
    }

    pub fn green() -> (c: Self)
        ensures
            c == (Color { r: 0u8, g: 255u8, b: 0u8 }),
    {
        Self::new(0, 255, 0)
    }

    pub fn blue() -> (c: Self)
        ensures
            c == (Color { r: 0u8, g: 0u8, b: 255u8 }),
    {
        Self::new(0, 0, 255)
    }
}

} // verus!
