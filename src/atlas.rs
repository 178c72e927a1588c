//! The atlas manager: per-kind pools of textures, rectangle packing into
//! them, a cache of tiles by key, and the uploads queued for the next frame.
//!
//! The manager decides and the caller performs the GPU work: it creates a
//! texture when a new one appears in a pool, copies staging bytes when
//! [`BladeAtlas::before_frame`] hands them out, and passes each frame's
//! completion fence to [`BladeAtlas::after_frame`].
use std::collections::HashMap;
use vstd::prelude::*;

use vstd::layout::size_of;

use crate::belt::{BladeBelt, BladeBeltDescriptor, BufferPiece, Memory, ReusableBuffer};
use crate::geometry::{Bounds, DevicePixels, Extent, Size};
use crate::packer::{rects_disjoint, MAX_TEXTURE_SIDE};
use crate::pool::{
    allocate_or_grow, bounds_in_rect, clear_pool, lemma_pool_packs_keeps, pool_cleared, pool_ids,
    pool_packs, pool_wf, push_pool_ids, rect_within, valid_tile_size, AtlasTexture,
};
use crate::texture::{
    spec_bytes_per_pixel, spec_format_of, spec_usage_of, AtlasKey, AtlasTextureId,
    AtlasTextureKind, AtlasTile, TextureFormat, TextureUsage,
};

verus! {

broadcast use vstd::std_specs::hash::group_hash_axioms, vstd::layout::layout_of_primitives, vstd::layout::align_of_u8;

/// The side of the textures an atlas makes unless told otherwise.
pub const DEFAULT_ATLAS_SIDE: i32 = 1024;

/// The smallest staging chunk the atlas's belt makes, in bytes.
pub const MIN_CHUNK_SIZE: u64 = 0x10000;

/// A copy from staging memory into a texture region, queued for the next
/// frame.
pub struct PendingUpload {
    pub id: AtlasTextureId,
    pub bounds: Bounds,
    pub data: BufferPiece,
    pub bytes: Vec<u8>,
}

/// A copy to record in a frame: write `bytes` into the staging chunk at
/// `data`, then copy them into the region of `texture` at
/// (`origin_x`, `origin_y`) of `size`, rows `bytes_per_row` apart.
pub struct TextureCopy {
    pub data: BufferPiece,
    pub bytes: Vec<u8>,
    pub bytes_per_row: u32,
    pub texture: AtlasTextureId,
    pub origin_x: u32,
    pub origin_y: u32,
    pub size: Extent,
}

/// The ids of every texture an atlas released, and the numbers of every
/// staging chunk, for the caller to free.
pub struct AtlasTeardown {
    pub textures: Vec<AtlasTextureId>,
    pub chunks: Vec<usize>,
}

/// What the caller needs to bind or create a texture.
#[derive(Clone, Copy, Debug, PartialEq, Eq)]
pub struct BladeTextureInfo {
    pub size: Extent,
    pub format: TextureFormat,
    pub usage: TextureUsage,
}

/// The texture manager: one pool of textures per kind, each pool in the
/// order its textures were made, the cache of tiles by key, the staging
/// belt and the uploads waiting for the next frame.
pub struct BladeAtlas<F> {
    default_size: Size,
    upload_belt: BladeBelt<F>,
    monochrome_textures: Vec<AtlasTexture>,
    polychrome_textures: Vec<AtlasTexture>,
    path_textures: Vec<AtlasTexture>,
    monochrome_tiles: HashMap<u64, AtlasTile>,
    polychrome_tiles: HashMap<u64, AtlasTile>,
    path_tiles: HashMap<u64, AtlasTile>,
    uploads: Vec<PendingUpload>,
}

/// The copy of one queued upload: from its staging bytes into its region
/// of a texture of `format`.
pub open spec fn copy_for(u: PendingUpload, format: TextureFormat) -> TextureCopy {
    TextureCopy {
        data: u.data,
        bytes: u.bytes,
        bytes_per_row: (u.bounds.size.width.0 * spec_bytes_per_pixel(format)) as u32,
        texture: u.id,
        origin_x: u.bounds.origin.x.0 as u32,
        origin_y: u.bounds.origin.y.0 as u32,
        size: Extent { width: u.bounds.size.width.0 as u32, height: u.bounds.size.height.0 as u32, depth: 1 },
    }
}

/// The tile size and bytes a builder hands over are ones the atlas takes.
pub open spec fn builds_valid<E>(built: Result<(Size, Vec<u8>), E>) -> bool {
    match built {
        Ok((size, bytes)) => valid_tile_size(size) && 0 < bytes@.len() < u64::MAX,
        Err(_) => true,
    }
}

impl<F: Clone> BladeAtlas<F> {
    pub closed spec fn default_size(&self) -> Size {
        self.default_size
    }

    pub closed spec fn belt(&self) -> BladeBelt<F> {
        self.upload_belt
    }

    /// The textures of one kind, oldest first.
    pub closed spec fn textures(&self, kind: AtlasTextureKind) -> Seq<AtlasTexture> {
        match kind {
            AtlasTextureKind::Monochrome => self.monochrome_textures@,
            AtlasTextureKind::Polychrome => self.polychrome_textures@,
            AtlasTextureKind::Path => self.path_textures@,
        }
    }

    /// The cached tiles of one kind, by key id.
    pub closed spec fn tiles_by_key(&self, kind: AtlasTextureKind) -> Map<u64, AtlasTile> {
        match kind {
            AtlasTextureKind::Monochrome => self.monochrome_tiles@,
            AtlasTextureKind::Polychrome => self.polychrome_tiles@,
            AtlasTextureKind::Path => self.path_tiles@,
        }
    }

    /// The uploads waiting for the next frame, in the order they were made.
    pub closed spec fn uploads(&self) -> Seq<PendingUpload> {
        self.uploads@
    }

    /// The tile cache.
    pub open spec fn cached(&self) -> Map<AtlasKey, AtlasTile> {
        Map::new(
            |k: AtlasKey| self.tiles_by_key(k.kind).contains_key(k.id),
            |k: AtlasKey| self.tiles_by_key(k.kind)[k.id],
        )
    }

    pub open spec fn texture_count(&self, kind: AtlasTextureKind) -> nat {
        self.textures(kind).len()
    }

    pub open spec fn has_texture(&self, id: AtlasTextureId) -> bool {
        id.index < self.texture_count(id.kind)
    }

    pub open spec fn texture(&self, id: AtlasTextureId) -> AtlasTexture {
        self.textures(id.kind)[id.index as int]
    }

    /// The tile's region is allocated in its texture: nothing else is
    /// packed over it until its kind is cleared.
    pub open spec fn holds(&self, tile: AtlasTile) -> bool {
        &&& self.has_texture(tile.texture_id)
        &&& self.texture(tile.texture_id).tiles().contains_key(tile.tile_id.0)
        &&& bounds_in_rect(tile.bounds, self.texture(tile.texture_id).tiles()[tile.tile_id.0])
        &&& tile.bounds.size.is_positive()
    }

    /// A region of a texture that exists, inside it.
    pub open spec fn target_wf(&self, id: AtlasTextureId, bounds: Bounds) -> bool {
        &&& self.has_texture(id)
        &&& bounds.size.is_positive()
        &&& bounds.lies_within(self.texture(id).size().0 as int, self.texture(id).size().1 as int)
    }

    /// A queued upload targets a texture that exists, inside it.
    pub open spec fn upload_wf(&self, u: PendingUpload) -> bool {
        self.target_wf(u.id, u.bounds)
    }

    pub open spec fn wf(&self) -> bool {
        &&& self.belt().wf()
        &&& valid_tile_size(self.default_size())
        &&& pool_wf(self.textures(AtlasTextureKind::Monochrome), AtlasTextureKind::Monochrome)
        &&& pool_wf(self.textures(AtlasTextureKind::Polychrome), AtlasTextureKind::Polychrome)
        &&& pool_wf(self.textures(AtlasTextureKind::Path), AtlasTextureKind::Path)
        &&& forall|i: int| 0 <= i < self.uploads().len() ==> self.upload_wf(#[trigger] self.uploads()[i])
    }

    /// Packing a tile keeps the invariant, holds the tile inside its
    /// texture, and keeps every tile that was held.
    proof fn lemma_packs_tile(pre: Self, post: Self, size: Size, kind: AtlasTextureKind, tile: AtlasTile)
        requires
            pre.wf(),
            Self::packs_tile(&pre, &post, size, kind, tile),
            pool_wf(post.textures(kind), kind),
            post.belt() == pre.belt(),
            post.uploads() == pre.uploads(),
            valid_tile_size(size),
        ensures
            post.wf(),
            post.holds(tile),
            tile.bounds.lies_within(post.texture(tile.texture_id).size().0 as int, post.texture(tile.texture_id).size().1 as int),
            forall|t: AtlasTile| pre.holds(t) ==> #[trigger] post.holds(t),
    {
        lemma_pool_packs_keeps(pre.textures(kind), post.textures(kind), size, pre.default_size(), tile);
        assert(post.textures(AtlasTextureKind::Monochrome) == pre.textures(AtlasTextureKind::Monochrome) || kind
            == AtlasTextureKind::Monochrome);
        assert(post.textures(AtlasTextureKind::Polychrome) == pre.textures(AtlasTextureKind::Polychrome) || kind
            == AtlasTextureKind::Polychrome);
        assert(post.textures(AtlasTextureKind::Path) == pre.textures(AtlasTextureKind::Path) || kind
            == AtlasTextureKind::Path);
        assert forall|i: int| 0 <= i < post.uploads().len() implies post.upload_wf(#[trigger] post.uploads()[i]) by {
            let u = post.uploads()[i];
            assert(pre.upload_wf(u));
            if u.id.kind == kind {
                assert(post.textures(kind)[u.id.index as int].size() == pre.textures(kind)[u.id.index as int].size());
            }
        }
        assert forall|t: AtlasTile| pre.holds(t) implies #[trigger] post.holds(t) by {
            if t.texture_id.kind == kind {
                assert(pre.textures(kind)[t.texture_id.index as int].tiles().contains_key(t.tile_id.0));
            }
        }
        let tex = post.texture(tile.texture_id);
        assert(tex.wf());
        assert(rect_within(tex.tiles()[tile.tile_id.0], tex.size()));
    }

    /// An atlas with no textures whose new textures are at least
    /// `default_size`.
    pub fn with_default_size(default_size: Size) -> (r: Self)
        requires
            valid_tile_size(default_size),
        ensures
            r.wf(),
            r.default_size() == default_size,
            forall|k: AtlasTextureKind| #[trigger] r.textures(k) == Seq::<AtlasTexture>::empty(),
            r.cached() == Map::<AtlasKey, AtlasTile>::empty(),
            r.uploads() == Seq::<PendingUpload>::empty(),
            r.belt().active() == Seq::<(ReusableBuffer, u64)>::empty(),
            r.belt().retired() == Seq::<(ReusableBuffer, F)>::empty(),
            r.belt().descriptor() == (BladeBeltDescriptor { memory: Memory::Upload, min_chunk_size: MIN_CHUNK_SIZE }),
            r.belt().chunks_made() == 0,
    {
        let r = BladeAtlas {
            default_size,
            upload_belt: BladeBelt::new(BladeBeltDescriptor { memory: Memory::Upload, min_chunk_size: MIN_CHUNK_SIZE }),
            monochrome_textures: Vec::new(),
            polychrome_textures: Vec::new(),
            path_textures: Vec::new(),
            monochrome_tiles: HashMap::new(),
            polychrome_tiles: HashMap::new(),
            path_tiles: HashMap::new(),
            uploads: Vec::new(),
        };
        assert(r.cached() =~= Map::<AtlasKey, AtlasTile>::empty());
        r
    }

    /// An atlas with no textures whose new textures are at least
    /// 1024 x 1024.
    pub fn new() -> (r: Self)
        ensures
            r.wf(),
            r.default_size() == (Size { width: DevicePixels(DEFAULT_ATLAS_SIDE), height: DevicePixels(DEFAULT_ATLAS_SIDE) }),
            forall|k: AtlasTextureKind| #[trigger] r.textures(k) == Seq::<AtlasTexture>::empty(),
            r.cached() == Map::<AtlasKey, AtlasTile>::empty(),
            r.uploads() == Seq::<PendingUpload>::empty(),
            r.belt().active() == Seq::<(ReusableBuffer, u64)>::empty(),
            r.belt().retired() == Seq::<(ReusableBuffer, F)>::empty(),
            r.belt().descriptor() == (BladeBeltDescriptor { memory: Memory::Upload, min_chunk_size: MIN_CHUNK_SIZE }),
            r.belt().chunks_made() == 0,
    {
        Self::with_default_size(Size { width: DevicePixels(DEFAULT_ATLAS_SIDE), height: DevicePixels(DEFAULT_ATLAS_SIDE) })
    }

    /// How many textures of `kind` there are.
    pub fn texture_count_of(&self, kind: AtlasTextureKind) -> (r: usize)
        ensures
            r == self.texture_count(kind),
    {
        match kind {
            AtlasTextureKind::Monochrome => self.monochrome_textures.len(),
            AtlasTextureKind::Polychrome => self.polychrome_textures.len(),
            AtlasTextureKind::Path => self.path_textures.len(),
        }
    }

    /// The capacity of staging chunk `chunk`, for the caller to create its
    /// buffer, if the belt holds it.
    pub fn staging_chunk_size(&self, chunk: usize) -> (r: Option<u64>)
        requires
            self.wf(),
        ensures
            r is None <==> chunk >= self.belt().chunks_made(),
            r matches Some(size) ==> (exists|i: int|
                0 <= i < self.belt().active().len() && #[trigger] self.belt().active()[i].0 == (ReusableBuffer { chunk, size }))
                || (exists|i: int|
                0 <= i < self.belt().retired().len() && #[trigger] self.belt().retired()[i].0 == (ReusableBuffer { chunk, size })),
            r is None ==> (forall|i: int| 0 <= i < self.belt().active().len() ==> #[trigger] self.belt().active()[i].0.chunk != chunk)
                && (forall|i: int| 0 <= i < self.belt().retired().len() ==> #[trigger] self.belt().retired()[i].0.chunk != chunk),
    {
        let r = self.upload_belt.chunk_size(chunk);
        assert(self.belt() == self.upload_belt);
        r
    }

    /// How many staging chunks the belt has made.
    pub fn staging_chunk_count(&self) -> (r: usize)
        ensures
            r == self.belt().chunks_made(),
    {
        self.upload_belt.chunk_count()
    }

    /// The memory the staging chunks live in.
    pub fn staging_memory(&self) -> (r: Memory)
        ensures
            r == self.belt().descriptor().memory,
    {
        self.upload_belt.descriptor_of().memory
    }

    /// Packs a tile of `size` into a texture of `texture_kind`, bypassing
    /// the cache: into the newest texture that takes it, else into a new
    /// texture of `max(size, default size)`.
    pub fn allocate(&mut self, size: Size, texture_kind: AtlasTextureKind) -> (r: AtlasTile)
        requires
            old(self).wf(),
            valid_tile_size(size),
            old(self).texture_count(texture_kind) < u32::MAX,
        ensures
            final(self).wf(),
            Self::packs_tile(old(self), final(self), size, texture_kind, r),
            final(self).holds(r),
            r.bounds.lies_within(
                final(self).texture(r.texture_id).size().0 as int,
                final(self).texture(r.texture_id).size().1 as int,
            ),
            forall|t: AtlasTile| old(self).holds(t) ==> #[trigger] final(self).holds(t),
            final(self).belt() == old(self).belt(),
            final(self).uploads() == old(self).uploads(),
            final(self).cached() == old(self).cached(),
    {
        let default = self.default_size;
        let tile = match texture_kind {
            AtlasTextureKind::Monochrome => allocate_or_grow(
                &mut self.monochrome_textures,
                AtlasTextureKind::Monochrome,
                size,
                default,
            ),
            AtlasTextureKind::Polychrome => allocate_or_grow(
                &mut self.polychrome_textures,
                AtlasTextureKind::Polychrome,
                size,
                default,
            ),
            AtlasTextureKind::Path => allocate_or_grow(&mut self.path_textures, AtlasTextureKind::Path, size, default),
        };
        proof {
            Self::lemma_packs_tile(*old(self), *self, size, texture_kind, tile);
        }
        assert(self.cached() =~= old(self).cached());
        tile
    }

    /// `post` is `pre` with the allocations of every texture of `kind`
    /// freed; nothing else changed.
    pub open spec fn clears_kind(pre: &Self, post: &Self, kind: AtlasTextureKind) -> bool {
        &&& post.default_size() == pre.default_size()
        &&& post.belt() == pre.belt()
        &&& post.uploads() == pre.uploads()
        &&& post.cached() == pre.cached()
        &&& forall|k: AtlasTextureKind| k != kind ==> #[trigger] post.textures(k) == pre.textures(k)
        &&& pool_cleared(pre.textures(kind), post.textures(kind))
    }

    /// Frees every tile of `texture_kind`, keeping the textures, so that
    /// the kind can be filled again from scratch without making textures.
    pub fn clear_textures(&mut self, texture_kind: AtlasTextureKind)
        requires
            old(self).wf(),
        ensures
            final(self).wf(),
            Self::clears_kind(old(self), final(self), texture_kind),
    {
        match texture_kind {
            AtlasTextureKind::Monochrome => clear_pool(&mut self.monochrome_textures, AtlasTextureKind::Monochrome),
            AtlasTextureKind::Polychrome => clear_pool(&mut self.polychrome_textures, AtlasTextureKind::Polychrome),
            AtlasTextureKind::Path => clear_pool(&mut self.path_textures, AtlasTextureKind::Path),
        }
        assert forall|i: int| 0 <= i < self.uploads().len() implies self.upload_wf(#[trigger] self.uploads()[i]) by {
            let u = self.uploads()[i];
            assert(old(self).upload_wf(old(self).uploads()[i]));
            if u.id.kind == texture_kind {
                assert(self.textures(texture_kind)[u.id.index as int].size() == old(self).textures(
                    texture_kind,
                )[u.id.index as int].size());
            }
        }
        assert(self.cached() =~= old(self).cached());
    }

    /// The size, format and usage of a texture.
    pub fn get_texture_info(&self, id: AtlasTextureId) -> (r: BladeTextureInfo)
        requires
            self.wf(),
            self.has_texture(id),
        ensures
            r.size == (Extent {
                width: self.texture(id).size().0 as u32,
                height: self.texture(id).size().1 as u32,
                depth: 1,
            }),
            r.format == spec_format_of(id.kind),
            r.usage == spec_usage_of(id.kind),
    {
        let texture = match id.kind {
            AtlasTextureKind::Monochrome => &self.monochrome_textures[id.index as usize],
            AtlasTextureKind::Polychrome => &self.polychrome_textures[id.index as usize],
            AtlasTextureKind::Path => &self.path_textures[id.index as usize],
        };
        let size = texture.size_of();
        BladeTextureInfo {
            size: Extent { width: size.0 as u32, height: size.1 as u32, depth: 1 },
            format: id.kind.format(),
            usage: id.kind.usage(),
        }
    }

    /// The cached tile of `key`, if there is one.
    fn cached_tile(&self, key: &AtlasKey) -> (r: Option<AtlasTile>)
        ensures
            r == (if self.cached().contains_key(*key) {
                Some(self.cached()[*key])
            } else {
                None::<AtlasTile>
            }),
    {
        let tiles = match key.kind {
            AtlasTextureKind::Monochrome => &self.monochrome_tiles,
            AtlasTextureKind::Polychrome => &self.polychrome_tiles,
            AtlasTextureKind::Path => &self.path_tiles,
        };
        match tiles.get(&key.id) {
            Some(tile) => Some(*tile),
            None => None,
        }
    }

    /// Remembers `tile` as the tile of `key`.
    fn insert_cached(&mut self, key: &AtlasKey, tile: AtlasTile)
        ensures
            final(self).cached() == old(self).cached().insert(*key, tile),
            final(self).default_size() == old(self).default_size(),
            final(self).belt() == old(self).belt(),
            final(self).uploads() == old(self).uploads(),
            forall|k: AtlasTextureKind| #[trigger] final(self).textures(k) == old(self).textures(k),
    {
        match key.kind {
            AtlasTextureKind::Monochrome => {
                self.monochrome_tiles.insert(key.id, tile);
            },
            AtlasTextureKind::Polychrome => {
                self.polychrome_tiles.insert(key.id, tile);
            },
            AtlasTextureKind::Path => {
                self.path_tiles.insert(key.id, tile);
            },
        }
        assert(self.cached() =~= old(self).cached().insert(*key, tile));
    }

    /// Stages `bytes` for a copy into `bounds` of texture `id` at the next
    /// frame.
    fn upload_texture<P: Fn(&F) -> bool>(&mut self, id: AtlasTextureId, bounds: Bounds, bytes: Vec<u8>, is_complete: &P)
        requires
            old(self).wf(),
            old(self).target_wf(id, bounds),
            old(self).belt().chunks_made() < usize::MAX,
            forall|f: &F| is_complete.requires((f,)),
            0 < bytes@.len() < u64::MAX,
        ensures
            final(self).wf(),
            BladeBelt::alloc_data_post(&old(self).belt(), &final(self).belt(), bytes@, is_complete, final(self).uploads().last().data),
            final(self).uploads().drop_last() == old(self).uploads(),
            final(self).uploads().last().id == id,
            final(self).uploads().last().bounds == bounds,
            final(self).uploads().last().bytes == bytes,
            final(self).default_size() == old(self).default_size(),
            final(self).cached() == old(self).cached(),
            forall|k: AtlasTextureKind| #[trigger] final(self).textures(k) == old(self).textures(k),
    {
        let n = bytes.len();
        assert(n * size_of::<u8>() <= usize::MAX);
        let data = self.upload_belt.alloc_data(bytes.as_slice(), is_complete);
        self.uploads.push(PendingUpload { id, bounds, data, bytes });
        assert(self.uploads@.drop_last() =~= old(self).uploads@);
        assert forall|i: int| 0 <= i < self.uploads().len() implies self.upload_wf(#[trigger] self.uploads()[i]) by {
            if i < old(self).uploads().len() {
                assert(old(self).upload_wf(old(self).uploads()[i]));
            }
        }
        assert(self.cached() =~= old(self).cached());
    }

    /// What `get_or_insert_with` did. On a cache hit: the cached tile, and
    /// nothing changed. On a miss: the builder ran once; its error came
    /// back with nothing changed, or its tile was packed (as `allocate`
    /// does), its bytes staged and queued for an upload into the tile, and
    /// the tile cached under the key.
    pub open spec fn get_or_insert_post<E, B: FnOnce() -> Result<(Size, Vec<u8>), E>, P: Fn(&F) -> bool>(
        pre: &Self,
        post: &Self,
        key: AtlasKey,
        build: B,
        is_complete: &P,
        r: Result<AtlasTile, E>,
    ) -> bool {
        if pre.cached().contains_key(key) {
            r == Ok::<AtlasTile, E>(pre.cached()[key]) && *post == *pre
        } else {
            exists|built: Result<(Size, Vec<u8>), E>|
                #[trigger] build.ensures((), built) && match built {
                    Err(e) => r == Err::<AtlasTile, E>(e) && *post == *pre,
                    Ok((size, bytes)) => match r {
                        Ok(tile) => {
                            &&& Self::packs_tile(pre, post, size, key.kind, tile)
                            &&& post.cached() == pre.cached().insert(key, tile)
                            &&& BladeBelt::alloc_data_post(
                                &pre.belt(),
                                &post.belt(),
                                bytes@,
                                is_complete,
                                post.uploads().last().data,
                            )
                            &&& post.uploads().drop_last() == pre.uploads()
                            &&& post.uploads().last().id == tile.texture_id
                            &&& post.uploads().last().bounds == tile.bounds
                            &&& post.uploads().last().bytes == bytes
                        },
                        Err(_) => false,
                    },
                }
        }
    }

    /// The tile of `key`: the cached one, or else one built by `build`,
    /// packed, staged for upload and cached. `is_complete` tells, without
    /// blocking, whether a frame's fence has passed.
    pub fn get_or_insert_with<E, B, P>(&mut self, key: &AtlasKey, build: B, is_complete: &P) -> (r: Result<AtlasTile, E>)
        where
            B: FnOnce() -> Result<(Size, Vec<u8>), E>,
            P: Fn(&F) -> bool,
        requires
            old(self).wf(),
            old(self).texture_count(key.kind) < u32::MAX,
            old(self).belt().chunks_made() < usize::MAX,
            build.requires(()),
            forall|built: Result<(Size, Vec<u8>), E>| #[trigger] build.ensures((), built) ==> builds_valid(built),
            forall|f: &F| is_complete.requires((f,)),
        ensures
            final(self).wf(),
            Self::get_or_insert_post(old(self), final(self), *key, build, is_complete, r),
            r matches Ok(tile) ==> final(self).holds(tile) && tile.bounds.lies_within(
                final(self).texture(tile.texture_id).size().0 as int,
                final(self).texture(tile.texture_id).size().1 as int,
            ) || old(self).cached().contains_key(*key),
            forall|t: AtlasTile| old(self).holds(t) ==> #[trigger] final(self).holds(t),
    {
        match self.cached_tile(key) {
            Some(tile) => Ok(tile),
            None => {
                let built = build();
                match built {
                    Err(e) => Err(e),
                    Ok((size, bytes)) => {
                        let tile = self.allocate(size, key.texture_kind());
                        let ghost packed_state = *self;
                        self.upload_texture(tile.texture_id, tile.bounds, bytes, is_complete);
                        self.insert_cached(key, tile);
                        assert(Self::packs_tile(old(self), self, size, key.kind, tile));
                        assert forall|t: AtlasTile| packed_state.holds(t) implies #[trigger] self.holds(t) by {
                            assert(self.textures(t.texture_id.kind) == packed_state.textures(t.texture_id.kind));
                        }
                        assert(self.textures(tile.texture_id.kind) == packed_state.textures(tile.texture_id.kind));
                        Ok(tile)
                    },
                }
            },
        }
    }

    /// Hands out the copies of every queued upload, in the order they were
    /// queued, and empties the queue.
    pub fn before_frame(&mut self) -> (r: Vec<TextureCopy>)
        requires
            old(self).wf(),
        ensures
            final(self).wf(),
            final(self).uploads() == Seq::<PendingUpload>::empty(),
            final(self).default_size() == old(self).default_size(),
            final(self).belt() == old(self).belt(),
            final(self).cached() == old(self).cached(),
            forall|k: AtlasTextureKind| #[trigger] final(self).textures(k) == old(self).textures(k),
            r@.len() == old(self).uploads().len(),
            forall|i: int|
                0 <= i < r@.len() ==> #[trigger] r@[i] == copy_for(
                    old(self).uploads()[i],
                    old(self).texture(old(self).uploads()[i].id).pixel_format(),
                ),
    {
        let mut pending: Vec<PendingUpload> = Vec::new();
        core::mem::swap(&mut pending, &mut self.uploads);
        let ghost all = pending@;
        let mut copies: Vec<TextureCopy> = Vec::new();
        while pending.len() > 0
            invariant
                self.default_size == old(self).default_size,
                self.upload_belt == old(self).upload_belt,
                self.monochrome_textures == old(self).monochrome_textures,
                self.polychrome_textures == old(self).polychrome_textures,
                self.path_textures == old(self).path_textures,
                self.monochrome_tiles == old(self).monochrome_tiles,
                self.polychrome_tiles == old(self).polychrome_tiles,
                self.path_tiles == old(self).path_tiles,
                self.uploads@ == Seq::<PendingUpload>::empty(),
                all == old(self).uploads@,
                old(self).wf(),
                copies@.len() + pending@.len() == all.len(),
                pending@ == all.subrange(copies@.len() as int, all.len() as int),
                forall|i: int|
                    0 <= i < copies@.len() ==> #[trigger] copies@[i] == copy_for(
                        all[i],
                        old(self).texture(all[i].id).pixel_format(),
                    ),
            decreases pending@.len(),
        {
            let upload = pending.remove(0);
            proof {
                assert(upload == all[copies@.len() as int]);
                assert(old(self).upload_wf(old(self).uploads()[copies@.len() as int]));
            }
            let texture = match upload.id.kind {
                AtlasTextureKind::Monochrome => &self.monochrome_textures[upload.id.index as usize],
                AtlasTextureKind::Polychrome => &self.polychrome_textures[upload.id.index as usize],
                AtlasTextureKind::Path => &self.path_textures[upload.id.index as usize],
            };
            assert(texture.wf());
            let bytes_per_pixel = texture.bytes_per_pixel();
            assert(upload.bounds.size.width.0 * bytes_per_pixel <= u32::MAX) by (nonlinear_arith)
                requires
                    0 < upload.bounds.size.width.0 <= MAX_TEXTURE_SIDE,
                    bytes_per_pixel <= 4,
            ;
            let copy = TextureCopy {
                data: upload.data,
                bytes_per_row: upload.bounds.size.width.to_bytes(bytes_per_pixel),
                texture: upload.id,
                origin_x: upload.bounds.origin.x.0 as u32,
                origin_y: upload.bounds.origin.y.0 as u32,
                size: Extent {
                    width: upload.bounds.size.width.0 as u32,
                    height: upload.bounds.size.height.0 as u32,
                    depth: 1,
                },
                bytes: upload.bytes,
            };
            copies.push(copy);
            assert(pending@ =~= all.subrange(copies@.len() as int, all.len() as int));
        }
        assert(self.cached() =~= old(self).cached());
        copies
    }

    /// Passes the fence of the frame that was just submitted to the belt:
    /// the staging chunks that frame reads wait for it.
    pub fn after_frame(&mut self, sync_point: &F)
        requires
            old(self).wf(),
        ensures
            final(self).wf(),
            BladeBelt::flush_post(&old(self).belt(), &final(self).belt(), *sync_point),
            final(self).default_size() == old(self).default_size(),
            final(self).uploads() == old(self).uploads(),
            final(self).cached() == old(self).cached(),
            forall|k: AtlasTextureKind| #[trigger] final(self).textures(k) == old(self).textures(k),
    {
        self.upload_belt.flush(sync_point);
        assert(self.cached() =~= old(self).cached());
        assert forall|i: int| 0 <= i < self.uploads().len() implies self.upload_wf(#[trigger] self.uploads()[i]) by {
            assert(old(self).upload_wf(old(self).uploads()[i]));
        }
    }

    /// Releases everything: the ids of all textures (monochrome, then
    /// polychrome, then path, each oldest first) and the numbers of all
    /// staging chunks, for the caller to free. The atlas is empty after.
    pub fn destroy(&mut self) -> (r: AtlasTeardown)
        requires
            old(self).wf(),
        ensures
            final(self).wf(),
            r.textures@ == pool_ids(old(self).texture_count(AtlasTextureKind::Monochrome), AtlasTextureKind::Monochrome)
                + pool_ids(old(self).texture_count(AtlasTextureKind::Polychrome), AtlasTextureKind::Polychrome)
                + pool_ids(old(self).texture_count(AtlasTextureKind::Path), AtlasTextureKind::Path),
            r.chunks@ == old(self).belt().retired().map_values(|e: (ReusableBuffer, F)| e.0.chunk) + old(
                self,
            ).belt().active().map_values(|e: (ReusableBuffer, u64)| e.0.chunk),
            forall|k: AtlasTextureKind| #[trigger] final(self).textures(k) == Seq::<AtlasTexture>::empty(),
            final(self).cached() == Map::<AtlasKey, AtlasTile>::empty(),
            final(self).uploads() == Seq::<PendingUpload>::empty(),
            final(self).default_size() == old(self).default_size(),
            final(self).belt().chunks_made() == 0,
    {
        let mut textures: Vec<AtlasTextureId> = Vec::new();
        push_pool_ids(&mut textures, self.monochrome_textures.len(), AtlasTextureKind::Monochrome);
        push_pool_ids(&mut textures, self.polychrome_textures.len(), AtlasTextureKind::Polychrome);
        push_pool_ids(&mut textures, self.path_textures.len(), AtlasTextureKind::Path);
        let chunks = self.upload_belt.destroy();
        self.monochrome_textures.clear();
        self.polychrome_textures.clear();
        self.path_textures.clear();
        self.monochrome_tiles.clear();
        self.polychrome_tiles.clear();
        self.path_tiles.clear();
        self.uploads.clear();
        assert(self.cached() =~= Map::<AtlasKey, AtlasTile>::empty());
        AtlasTeardown { textures, chunks }
    }

    /// Memoization: once `get_or_insert_with` has produced a tile for a key,
    /// a later call for that key, whatever builder it is given, returns the
    /// same tile and leaves the atlas as it was.
    pub proof fn lemma_get_or_insert_memoized<E, B1, B2, P>(
        s0: Self,
        s1: Self,
        s2: Self,
        key: AtlasKey,
        build1: B1,
        build2: B2,
        is_complete: &P,
        r1: Result<AtlasTile, E>,
        r2: Result<AtlasTile, E>,
    )
        where
            B1: FnOnce() -> Result<(Size, Vec<u8>), E>,
            B2: FnOnce() -> Result<(Size, Vec<u8>), E>,
            P: Fn(&F) -> bool,
        requires
            Self::get_or_insert_post(&s0, &s1, key, build1, is_complete, r1),
            r1 is Ok,
            Self::get_or_insert_post(&s1, &s2, key, build2, is_complete, r2),
        ensures
            r2 == r1,
            s2 == s1,
            s1.cached().contains_key(key),
    {
        if !s0.cached().contains_key(key) {
            let built = choose|built: Result<(Size, Vec<u8>), E>|
                #[trigger] build1.ensures((), built) && match built {
                    Err(e) => r1 == Err::<AtlasTile, E>(e) && s1 == s0,
                    Ok((size, bytes)) => match r1 {
                        Ok(tile) => {
                            &&& Self::packs_tile(&s0, &s1, size, key.kind, tile)
                            &&& s1.cached() == s0.cached().insert(key, tile)
                            &&& BladeBelt::alloc_data_post(
                                &s0.belt(),
                                &s1.belt(),
                                bytes@,
                                is_complete,
                                s1.uploads().last().data,
                            )
                            &&& s1.uploads().drop_last() == s0.uploads()
                            &&& s1.uploads().last().id == tile.texture_id
                            &&& s1.uploads().last().bounds == tile.bounds
                            &&& s1.uploads().last().bytes == bytes
                        },
                        Err(_) => false,
                    },
                };
            assert(s1.cached().contains_key(key));
        }
    }

    /// A cached tile stays cached: a `get_or_insert_with` call for any key
    /// keeps every entry already in the cache. With the unchanged cache
    /// that `allocate`, `clear_textures`, `before_frame` and `after_frame`
    /// ensure, every later call for a cached key is a hit that returns the
    /// cached tile and builds nothing.
    pub proof fn lemma_cache_entry_kept<E, B, P>(
        s0: Self,
        s1: Self,
        key: AtlasKey,
        build: B,
        is_complete: &P,
        r: Result<AtlasTile, E>,
        cached_key: AtlasKey,
    )
        where
            B: FnOnce() -> Result<(Size, Vec<u8>), E>,
            P: Fn(&F) -> bool,
        requires
            Self::get_or_insert_post(&s0, &s1, key, build, is_complete, r),
            s0.cached().contains_key(cached_key),
        ensures
            s1.cached().contains_key(cached_key),
            s1.cached()[cached_key] == s0.cached()[cached_key],
    {
        if !s0.cached().contains_key(key) {
            let built = choose|built: Result<(Size, Vec<u8>), E>|
                #[trigger] build.ensures((), built) && match built {
                    Err(e) => r == Err::<AtlasTile, E>(e) && s1 == s0,
                    Ok((size, bytes)) => match r {
                        Ok(tile) => {
                            &&& Self::packs_tile(&s0, &s1, size, key.kind, tile)
                            &&& s1.cached() == s0.cached().insert(key, tile)
                            &&& BladeBelt::alloc_data_post(
                                &s0.belt(),
                                &s1.belt(),
                                bytes@,
                                is_complete,
                                s1.uploads().last().data,
                            )
                            &&& s1.uploads().drop_last() == s0.uploads()
                            &&& s1.uploads().last().id == tile.texture_id
                            &&& s1.uploads().last().bounds == tile.bounds
                            &&& s1.uploads().last().bytes == bytes
                        },
                        Err(_) => false,
                    },
                };
            assert(cached_key != key);
        }
    }

    /// Packing correctness: two different tiles that the atlas holds in
    /// the same texture share no pixel.
    pub proof fn lemma_held_tiles_disjoint(&self, a: AtlasTile, b: AtlasTile)
        requires
            self.wf(),
            self.holds(a),
            self.holds(b),
            a.texture_id == b.texture_id,
            a.tile_id != b.tile_id,
        ensures
            !a.bounds.intersects(b.bounds),
    {
        let tex = self.texture(a.texture_id);
        assert(tex.wf());
        assert(rects_disjoint(tex.tiles()[a.tile_id.0], tex.tiles()[b.tile_id.0]));
    }

    /// Packing a tile holds it and keeps every tile that was held.
    proof fn lemma_packs_tile_holds(pre: Self, post: Self, size: Size, kind: AtlasTextureKind, tile: AtlasTile)
        requires
            Self::packs_tile(&pre, &post, size, kind, tile),
            valid_tile_size(size),
        ensures
            post.holds(tile),
            forall|t: AtlasTile| pre.holds(t) ==> #[trigger] post.holds(t),
    {
        lemma_pool_packs_keeps(pre.textures(kind), post.textures(kind), size, pre.default_size(), tile);
        assert forall|t: AtlasTile| pre.holds(t) implies #[trigger] post.holds(t) by {
            if t.texture_id.kind == kind {
                assert(pre.textures(kind)[t.texture_id.index as int].tiles().contains_key(t.tile_id.0));
            } else {
                assert(post.textures(t.texture_id.kind) == pre.textures(t.texture_id.kind));
            }
        }
    }

    /// Packing correctness over two calls: a tile that `allocate` packed,
    /// and one that a later `allocate` packed into the same texture, share
    /// no pixel.
    pub proof fn lemma_allocations_disjoint(
        s0: Self,
        s1: Self,
        s2: Self,
        size1: Size,
        kind1: AtlasTextureKind,
        t1: AtlasTile,
        size2: Size,
        kind2: AtlasTextureKind,
        t2: AtlasTile,
    )
        requires
            s2.wf(),
            valid_tile_size(size1),
            valid_tile_size(size2),
            Self::packs_tile(&s0, &s1, size1, kind1, t1),
            Self::packs_tile(&s1, &s2, size2, kind2, t2),
            t1.texture_id == t2.texture_id,
        ensures
            !t1.bounds.intersects(t2.bounds),
    {
        Self::lemma_packs_tile_holds(s0, s1, size1, kind1, t1);
        Self::lemma_packs_tile_holds(s1, s2, size2, kind2, t2);
        let i = t2.texture_id.index as int;
        let old_pool = s1.textures(kind2);
        let new_pool = s2.textures(kind2);
        assert(i < old_pool.len());
        assert(new_pool[i].adds_tile(&old_pool[i], size2, t2));
        assert(t1.tile_id != t2.tile_id);
        s2.lemma_held_tiles_disjoint(t1, t2);
    }

    /// A held tile lies inside its texture, so the texture is at least as
    /// large as the tile, however large the tile was.
    pub proof fn lemma_texture_fits_tile(&self, tile: AtlasTile)
        requires
            self.wf(),
            self.holds(tile),
        ensures
            tile.bounds.lies_within(
                self.texture(tile.texture_id).size().0 as int,
                self.texture(tile.texture_id).size().1 as int,
            ),
            tile.bounds.size.width.0 <= self.texture(tile.texture_id).size().0,
            tile.bounds.size.height.0 <= self.texture(tile.texture_id).size().1,
    {
        let tex = self.texture(tile.texture_id);
        assert(tex.wf());
        assert(rect_within(tex.tiles()[tile.tile_id.0], tex.size()));
    }

    /// Clearing a kind keeps its textures and empties them, so a tile that
    /// fits the newest of them is packed into it and no texture is made.
    pub proof fn lemma_cleared_kind_takes_tile_in_place(
        pre: Self,
        cleared: Self,
        post: Self,
        kind: AtlasTextureKind,
        size: Size,
        tile: AtlasTile,
    )
        requires
            pre.wf(),
            Self::clears_kind(&pre, &cleared, kind),
            Self::packs_tile(&cleared, &post, size, kind, tile),
            pre.texture_count(kind) > 0,
            0 < size.width.0 <= pre.textures(kind).last().size().0,
            0 < size.height.0 <= pre.textures(kind).last().size().1,
        ensures
            cleared.texture_count(kind) == pre.texture_count(kind),
            post.texture_count(kind) == pre.texture_count(kind),
            tile.texture_id.index == pre.texture_count(kind) - 1,
    {
        let n = pre.texture_count(kind) as int;
        let pool = cleared.textures(kind);
        assert(pool[n - 1].surely_takes(size));
    }

    /// `post` is `pre` with a tile of `size` packed into a texture of
    /// `kind` (see [`pool_packs`]); other pools are untouched.
    pub open spec fn packs_tile(pre: &Self, post: &Self, size: Size, kind: AtlasTextureKind, tile: AtlasTile) -> bool {
        &&& post.default_size() == pre.default_size()
        &&& forall|k: AtlasTextureKind| k != kind ==> #[trigger] post.textures(k) == pre.textures(k)
        &&& tile.texture_id.kind == kind
        &&& pool_packs(pre.textures(kind), post.textures(kind), size, pre.default_size(), tile)
    }
}

} // verus!