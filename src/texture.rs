//! Texture kinds, the fixed policy that goes with each, and the values that
//! name textures and tiles.
use vstd::prelude::*;

use crate::geometry::Bounds;

verus! {

/// The pool a tile is drawn from. Tiles of different kinds never share a
/// texture, since format and usage differ.
#[derive(Clone, Copy, Debug, PartialEq, Eq, Hash)]
pub enum AtlasTextureKind {
    Monochrome,
    Polychrome,
    Path,
}

/// The pixel format of an atlas texture.
#[derive(Clone, Copy, Debug, PartialEq, Eq, Hash)]
pub enum TextureFormat {
    /// One 8-bit channel.
    R8Unorm,
    /// Four 8-bit colour channels.
    Bgra8Unorm,
    /// One 16-bit float channel.
    R16Float,
}

/// What the GPU may do with an atlas texture.
#[derive(Clone, Copy, Debug, PartialEq, Eq, Hash)]
pub struct TextureUsage {
    pub copy: bool,
    pub resource: bool,
    /// The texture can be rendered into, and so gets a view.
    pub target: bool,
}

pub open spec fn spec_format_of(kind: AtlasTextureKind) -> TextureFormat {
    match kind {
        AtlasTextureKind::Monochrome => TextureFormat::R8Unorm,
        AtlasTextureKind::Polychrome => TextureFormat::Bgra8Unorm,
        AtlasTextureKind::Path => TextureFormat::R16Float,
    }
}

pub open spec fn spec_usage_of(kind: AtlasTextureKind) -> TextureUsage {
    TextureUsage { copy: true, resource: true, target: kind == AtlasTextureKind::Path }
}

pub open spec fn spec_bytes_per_pixel(format: TextureFormat) -> u8 {
    match format {
        TextureFormat::R8Unorm => 1,
        TextureFormat::Bgra8Unorm => 4,
        TextureFormat::R16Float => 2,
    }
}

impl AtlasTextureKind {
    /// The pixel format of the textures of this kind.
    pub fn format(self) -> (r: TextureFormat)
        ensures
            r == spec_format_of(self),
    {
        match self {
            AtlasTextureKind::Monochrome => TextureFormat::R8Unorm,
            AtlasTextureKind::Polychrome => TextureFormat::Bgra8Unorm,
            AtlasTextureKind::Path => TextureFormat::R16Float,
        }
    }

    /// The GPU usage of the textures of this kind: path coverage is
    /// rendered straight into its textures.
    pub fn usage(self) -> (r: TextureUsage)
        ensures
            r == spec_usage_of(self),
    {
        match self {
            AtlasTextureKind::Path => TextureUsage { copy: true, resource: true, target: true },
            _ => TextureUsage { copy: true, resource: true, target: false },
        }
    }
}

impl TextureFormat {
    /// The size in bytes of one pixel.
    pub fn bytes_per_pixel(self) -> (r: u8)
        ensures
            r == spec_bytes_per_pixel(self),
            1 <= r <= 4,
    {
        match self {
            TextureFormat::R8Unorm => 1,
            TextureFormat::Bgra8Unorm => 4,
            TextureFormat::R16Float => 2,
        }
    }
}

/// One physical texture: its kind and its place in that kind's pool.
#[derive(Clone, Copy, Debug, PartialEq, Eq, Hash)]
pub struct AtlasTextureId {
    pub index: u32,
    pub kind: AtlasTextureKind,
}

/// The packer's handle of an allocation.
#[derive(Clone, Copy, Debug, PartialEq, Eq, Hash)]
pub struct TileId(pub u32);

/// A region of an atlas texture that holds one asset.
#[derive(Clone, Copy, Debug, PartialEq, Eq, Hash)]
pub struct AtlasTile {
    pub texture_id: AtlasTextureId,
    pub tile_id: TileId,
    pub padding: u32,
    pub bounds: Bounds,
}

/// What a cached asset is known by: the pool it belongs in and an
/// identifier of its content (a glyph and its render parameters, an SVG
/// path and colour, ...).
#[derive(Clone, Copy, Debug, PartialEq, Eq, Hash)]
pub struct AtlasKey {
    pub kind: AtlasTextureKind,
    pub id: u64,
}

impl AtlasKey {
    /// The pool whose textures hold this asset.
    pub fn texture_kind(&self) -> (r: AtlasTextureKind)
        ensures
            r == self.kind,
    {
        self.kind
    }
}

} // verus!
