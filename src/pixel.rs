use vstd::prelude::*;
use crate::text::{decimal, parse_rgb, push_decimal, rgb_of_text};

verus! {

/// A colour given as red, green and blue channels.
pub type Rgb = (u8, u8, u8);

/// Red channel of the background colour.
pub const BG_RED: u8 = 51;

/// Green channel of the background colour.
pub const BG_GREEN: u8 = 76;

/// Blue channel of the background colour.
pub const BG_BLUE: u8 = 76;

/// 32 bit RGBA pixel, laid out blue first as the display surface expects.
#[derive(Copy, Clone, Debug, PartialEq, Eq, Structural)]
pub struct Pixel {
    pub blue: u8,
    pub green: u8,
    pub red: u8,
    pub alfa: u8,
}

/// The opaque pixel of the given channels.
pub open spec fn opaque(red: u8, green: u8, blue: u8) -> Pixel {
    Pixel { blue, green, red, alfa: 255 }
}

/// The opaque pixel of a colour tuple.
pub open spec fn opaque_rgb(rgb: Rgb) -> Pixel {
    opaque(rgb.0, rgb.1, rgb.2)
}

/// A pixel in the plain PPM format: its red, green and blue in decimal,
/// each preceded by a space, with one more space at the end.
pub open spec fn ppm_pixel_text(p: Pixel) -> Seq<char> {
    seq![' '] + decimal(p.red as nat) + seq![' '] + decimal(p.green as nat) + seq![' '] + decimal(p.blue as nat)
        + seq![' ']
}

impl Pixel {
    /// Creates an opaque pixel with the given red, green and blue.
    pub fn new(red: u8, green: u8, blue: u8) -> (p: Self)
        ensures
            p == opaque(red, green, blue),
    {
        Pixel { red, green, blue, alfa: 255 }
    }

    /// Creates an opaque pixel from a (red, green, blue) tuple.
    pub fn from_rgb_tuple(rgb: (u8, u8, u8)) -> (p: Self)
        ensures
            p == opaque_rgb(rgb),
    {
        let (red, green, blue) = rgb;
        Self::new(red, green, blue)
    }

    /// Reads a pixel from three decimal values, red, green and blue, parted
    /// by whitespace; any amount of whitespace may lead and trail. `None`
    /// where the text holds another number of values or a value that is not
    /// a byte.
    pub fn try_from_string(rgb: &str) -> (p: Option<Self>)
        ensures
            p == match rgb_of_text(rgb@) {
                Some(c) => Some(opaque_rgb(c)),
                None => None::<Pixel>,
            },
    {
        match parse_rgb(rgb) {
            Some(c) => Some(Self::from_rgb_tuple(c)),
            None => None,
        }
    }

    /// Reads a pixel from three decimal values, red, green and blue, parted
    /// by whitespace; any amount of whitespace may lead and trail.
    pub fn from_string(rgb: &str) -> (p: Self)
        requires
            rgb_of_text(rgb@) is Some,
        ensures
            p == opaque_rgb(rgb_of_text(rgb@)->Some_0),
    {
        match parse_rgb(rgb) {
            Some(c) => Self::from_rgb_tuple(c),
            None => Self::new(0, 0, 0),
        }
    }

    /// The pixel in the plain PPM format, as `" r g b "`.
    pub fn plain_ppm_pixel_format(&self) -> (s: String)
        ensures
            s@ == ppm_pixel_text(*self),
    {
        let mut s = String::new();
        proof {
            reveal_strlit(" ");
        }
        s.append(" ");
        push_decimal(&mut s, self.red as u64);
        s.append(" ");
        push_decimal(&mut s, self.green as u64);
        s.append(" ");
        push_decimal(&mut s, self.blue as u64);
        s.append(" ");
        assert(s@ =~= ppm_pixel_text(*self));
        s
    }
}

impl Default for Pixel {
    /// The background colour.
    fn default() -> (p: Self)
        ensures
            p == opaque(BG_RED, BG_GREEN, BG_BLUE),
    {
        Self::new(BG_RED, BG_GREEN, BG_BLUE)
    }
}

} // verus!
