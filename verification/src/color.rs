//! Colours on the display scale and their cut to eight bits.

use vstd::prelude::*;
use crate::ppm::Rgb;

verus! {

/// A colour on the display scale: each channel is the gamma-encoded value
/// times 255, cut to a whole number. Shading does not limit brightness, so a
/// channel may lie outside `0..=255`.
#[derive(Clone, Copy, Debug, PartialEq, Eq, Default)]
pub struct Color {
    pub red: i32,
    pub green: i32,
    pub blue: i32,
}

impl Color {
    /// The largest value of an 8-bit channel.
    pub const MAX: i32 = 255;

    /// `channel` limited to `0..=255`.
    pub open spec fn limit(channel: int) -> int {
        if channel < 0 {
            0
        } else if channel > 255 {
            255
        } else {
            channel
        }
    }

    /// The 8-bit colour that `to_rgb` gives.
    pub open spec fn rgb(self) -> Rgb {
        (
            Self::limit(self.red as int) as u8,
            Self::limit(self.green as int) as u8,
            Self::limit(self.blue as int) as u8,
        )
    }

    /// A colour from its three channels on the display scale.
    pub fn new(red: i32, green: i32, blue: i32) -> (color: Color)
        ensures
            color.red == red,
            color.green == green,
            color.blue == blue,
    {
        Color { red, green, blue }
    }

    /// The colour with each channel limited to `0..=255`: what is too dark
    /// becomes 0, what is too bright becomes 255.
    pub fn clamp(&self) -> (color: Color)
        ensures
            color.red == Self::limit(self.red as int),
            color.green == Self::limit(self.green as int),
            color.blue == Self::limit(self.blue as int),
    {
        Color {
            red: clamp_channel(self.red),
            green: clamp_channel(self.green),
            blue: clamp_channel(self.blue),
        }
    }

    /// The colour as three bytes. A channel outside `0..=255` is clamped, never
    /// wrapped.
    pub fn to_rgb(&self) -> (rgb: Rgb)
        ensures
            rgb == self.rgb(),
    {
        let limited = self.clamp();
        (limited.red as u8, limited.green as u8, limited.blue as u8)
    }
}

fn clamp_channel(channel: i32) -> (limited: i32)
    ensures
        limited == Color::limit(channel as int),
{
    if channel < 0 {
        0
    } else if channel > Color::MAX {
        Color::MAX
    } else {
        channel
    }
}

} // verus!
