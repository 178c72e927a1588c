//! A GPU texture atlas and its staging-buffer belt, with the bookkeeping
//! (rectangle packing, tile caching, staging reuse) verified.

pub mod atlas;
pub mod belt;
pub mod geometry;
pub mod packer;
pub mod pool;
pub mod texture;

pub use atlas::{
    AtlasTeardown, BladeAtlas, BladeTextureInfo, PendingUpload, TextureCopy,
    DEFAULT_ATLAS_SIDE, MIN_CHUNK_SIZE,
};
pub use belt::{BladeBelt, BladeBeltDescriptor, BufferPiece, Memory, ReusableBuffer};
pub use geometry::{Bounds, DevicePixels, Extent, Point, Size};
pub use packer::MAX_TEXTURE_SIDE;
pub use pool::AtlasTexture;
pub use texture::{
    AtlasKey, AtlasTextureId, AtlasTextureKind, AtlasTile, TextureFormat, TextureUsage, TileId,
};
