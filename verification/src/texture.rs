//! Texture maps as the forge hands them to encoders: a channel layout, a bit
//! depth, an extent and the samples, row by row from the top.

use vstd::prelude::*;

verus! {

/// How the channels of one texel are laid out.
#[derive(Debug, Clone, Copy, PartialEq, Eq, Structural, Hash)]
pub enum ChannelLayout {
    /// One grey channel.
    Grey,
    /// Grey and alpha.
    GreyAlpha,
    /// Red, green and blue.
    Rgb,
    /// Red, green, blue and alpha.
    Rgba,
}

/// Channels per texel.
pub open spec fn channel_count(layout: ChannelLayout) -> int {
    match layout {
        ChannelLayout::Grey => 1,
        ChannelLayout::GreyAlpha => 2,
        ChannelLayout::Rgb => 3,
        ChannelLayout::Rgba => 4,
    }
}

impl ChannelLayout {
    /// Channels per texel.
    pub fn count(self) -> (n: u8)
        ensures
            n == channel_count(self),
    {
        match self {
            ChannelLayout::Grey => 1,
            ChannelLayout::GreyAlpha => 2,
            ChannelLayout::Rgb => 3,
            ChannelLayout::Rgba => 4,
        }
    }
}

/// The sample format of a map.
#[derive(Debug, Clone, Copy, PartialEq, Eq, Structural, Hash)]
pub struct TextureFormat {
    /// Channel layout.
    pub channels: ChannelLayout,
    /// Bits per channel sample.
    pub bits_per_channel: u8,
}

impl TextureFormat {
    /// Eight bits per channel.
    pub fn eight_bit(channels: ChannelLayout) -> (f: Self)
        ensures
            f.channels == channels,
            f.bits_per_channel == 8,
    {
        TextureFormat { channels, bits_per_channel: 8 }
    }

    /// Sixteen bits per channel.
    pub fn sixteen_bit(channels: ChannelLayout) -> (f: Self)
        ensures
            f.channels == channels,
            f.bits_per_channel == 16,
    {
        TextureFormat { channels, bits_per_channel: 16 }
    }
}

/// One texture map: format, extent and samples.
#[derive(Debug, Clone, PartialEq, Eq)]
pub struct TextureMap {
    /// Sample format.
    pub format: TextureFormat,
    /// Texels per row.
    pub width: u32,
    /// Rows.
    pub height: u32,
    /// Samples, row by row from the top.
    pub pixels: Vec<u8>,
}

/// What a map of a material is for.
#[derive(Debug, Clone, Copy, PartialEq, Eq, Structural, Hash)]
pub enum MapRole {
    /// Base colour; every material has one.
    Albedo,
    /// Surface normals.
    Normal,
    /// Microfacet roughness.
    Roughness,
    /// Metalness.
    Metallic,
    /// Ambient occlusion.
    AmbientOcclusion,
    /// Displacement height.
    Height,
}

impl MapRole {
    /// Whether every material has this map, so no policy can leave it out.
    pub fn is_required(self) -> (r: bool)
        ensures
            r == (self == MapRole::Albedo),
    {
        match self {
            MapRole::Albedo => true,
            _ => false,
        }
    }
}

} // verus!
