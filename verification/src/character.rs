use vstd::prelude::*;

verus! {

/// An RGB color with 8-bit channels.
#[derive(Clone, Copy, PartialEq, Eq, Structural, Debug)]
pub struct Color {
    pub r: u8,
    pub g: u8,
    pub b: u8,
}

/// A colored character cell: what one screen position shows.
#[derive(Clone, Copy, PartialEq, Eq, Structural, Debug)]
pub struct Character {
    pub symbol: char,
    pub color: Color,
    pub color_back: Color,
}

impl Color {
    /// Every channel reduced by `amount`, clamped at zero.
    pub open spec fn spec_dimmed(self, amount: u8) -> Color {
        Color {
            r: if self.r >= amount { (self.r - amount) as u8 } else { 0 },
            g: if self.g >= amount { (self.g - amount) as u8 } else { 0 },
            b: if self.b >= amount { (self.b - amount) as u8 } else { 0 },
        }
    }

    /// Darken the color by `amount` per channel without underflowing.
    pub fn dimmed_safe(self, amount: u8) -> (r: Color)
        ensures
            r == self.spec_dimmed(amount),
    {
        Color {
            r: if self.r >= amount { self.r - amount } else { 0 },
            g: if self.g >= amount { self.g - amount } else { 0 },
            b: if self.b >= amount { self.b - amount } else { 0 },
        }
    }
}

impl Character {
    /// The blank cell: a space in white on black.
    pub open spec fn spec_default() -> Character {
        Character {
            symbol: ' ',
            color: Color { r: 255, g: 255, b: 255 },
            color_back: Color { r: 0, g: 0, b: 0 },
        }
    }

    /// Darken the foreground color, clamping each channel at zero.
    pub fn dim_color_safe(self, amount: u8) -> (r: Character)
        ensures
            r == (Character { color: self.color.spec_dimmed(amount), ..self }),
    {
        Character { color: self.color.dimmed_safe(amount), ..self }
    }

    /// Darken the background color, clamping each channel at zero.
    pub fn dim_background_safe(self, amount: u8) -> (r: Character)
        ensures
            r == (Character { color_back: self.color_back.spec_dimmed(amount), ..self }),
    {
        Character { color_back: self.color_back.dimmed_safe(amount), ..self }
    }
}

impl Default for Character {
    /// The blank cell: a space in white on black.
    fn default() -> (r: Self)
        ensures
            r == Character::spec_default(),
    {
        Character {
            symbol: ' ',
            color: Color { r: 255, g: 255, b: 255 },
            color_back: Color { r: 0, g: 0, b: 0 },
        }
    }
}

} // verus!
