//! The textures of one kind: each with its packer, kept in the order
//! they were made, and the searches that pack tiles into them.
use vstd::prelude::*;

use crate::geometry::{Bounds, DevicePixels, Point, Size};
use crate::packer::{
    default_packer, extent, packed, packer_allocate, packer_clear, packer_new, packer_size,
    rects_disjoint, refuses, PackedRect, MAX_TEXTURE_SIDE,
};
use crate::texture::{
    spec_bytes_per_pixel, spec_format_of, AtlasTextureId, AtlasTextureKind, AtlasTile,
    TextureFormat, TileId,
};

verus! {

/// One physical texture: where it stands in its pool, its packer and its
/// pixel format.
pub struct AtlasTexture {
    pub(crate) id: AtlasTextureId,
    pub(crate) allocator: etagere::BucketedAtlasAllocator,
    pub(crate) format: TextureFormat,
}

/// The packed rectangle lies inside a texture of the given size.
pub open spec fn rect_within(r: PackedRect, size: (i32, i32)) -> bool {
    0 <= r.0 && r.0 <= r.2 && r.2 <= size.0 && 0 <= r.1 && r.1 <= r.3 && r.3 <= size.1
}

/// The tile's bounds lie inside the packed rectangle.
pub open spec fn bounds_in_rect(b: Bounds, r: PackedRect) -> bool {
    r.0 <= b.left() && b.right() <= r.2 && r.1 <= b.top() && b.bottom() <= r.3
}

/// A side length that a tile or a texture may have.
pub open spec fn valid_side(v: int) -> bool {
    0 < v <= MAX_TEXTURE_SIDE
}

/// A tile size that the atlas takes: positive and no larger than the
/// largest texture.
pub open spec fn valid_tile_size(size: Size) -> bool {
    valid_side(size.width.0 as int) && valid_side(size.height.0 as int)
}

/// Allocations that lie inside a texture of `size` and share no pixel.
pub open spec fn packing_wf(m: Map<u32, PackedRect>, size: (i32, i32)) -> bool {
    &&& forall|id: u32| #[trigger] m.contains_key(id) ==> rect_within(m[id], size)
    &&& forall|a: u32, b: u32|
        #[trigger] m.contains_key(a) && #[trigger] m.contains_key(b) && a != b ==> rects_disjoint(m[a], m[b])
}

proof fn lemma_packing_insert(m: Map<u32, PackedRect>, size: (i32, i32), id: u32, r: PackedRect)
    requires
        packing_wf(m, size),
        !m.contains_key(id),
        rect_within(r, size),
        forall|k: u32| #[trigger] m.contains_key(k) ==> rects_disjoint(m[k], r),
    ensures
        packing_wf(m.insert(id, r), size),
{
    let m2 = m.insert(id, r);
    assert forall|a: u32, b: u32|
        #[trigger] m2.contains_key(a) && #[trigger] m2.contains_key(b) && a != b implies rects_disjoint(
        m2[a],
        m2[b],
    ) by {
        if a == id {
            assert(m.contains_key(b));
        } else if b == id {
            assert(m.contains_key(a));
        } else {
            assert(m.contains_key(a) && m.contains_key(b));
        }
    }
    assert forall|k: u32| #[trigger] m2.contains_key(k) implies rect_within(m2[k], size) by {
        if k != id {
            assert(m.contains_key(k));
        }
    }
}

impl AtlasTexture {
    /// Where the texture stands in its pool.
    pub closed spec fn texture_id(&self) -> AtlasTextureId {
        self.id
    }

    /// The pixel format of the texture.
    pub closed spec fn pixel_format(&self) -> TextureFormat {
        self.format
    }

    /// The width and height of the texture.
    pub closed spec fn size(&self) -> (i32, i32) {
        extent(self.allocator)
    }

    /// The allocations in the texture, by allocation id.
    pub closed spec fn tiles(&self) -> Map<u32, PackedRect> {
        packed(self.allocator)
    }

    /// The packer is one this library made.
    pub closed spec fn packer_is_default(&self) -> bool {
        default_packer(self.allocator)
    }

    /// The packer finds no room for a tile of `size`.
    pub closed spec fn refuses_tile(&self, size: Size) -> bool {
        refuses(self.allocator, size.width.0, size.height.0)
    }

    /// The packer refused a tile of `size`, which it could not have done
    /// had it been empty with room.
    pub open spec fn declines(&self, size: Size) -> bool {
        self.refuses_tile(size) && !self.surely_takes(size)
    }

    /// Its size is one a packer takes, and its allocations lie inside it
    /// and are pairwise disjoint.
    pub open spec fn wf(&self) -> bool {
        &&& valid_side(self.size().0 as int)
        &&& valid_side(self.size().1 as int)
        &&& packing_wf(self.tiles(), self.size())
        &&& self.packer_is_default()
    }

    /// With nothing allocated and room for `size`, an allocation always
    /// succeeds.
    pub open spec fn surely_takes(&self, size: Size) -> bool {
        &&& self.tiles().is_empty()
        &&& 0 < size.width.0 <= self.size().0
        &&& 0 < size.height.0 <= self.size().1
    }

    /// The same texture, with the same allocations.
    pub open spec fn same_as(&self, other: &AtlasTexture) -> bool {
        &&& self.texture_id() == other.texture_id()
        &&& self.pixel_format() == other.pixel_format()
        &&& self.size() == other.size()
        &&& self.tiles() == other.tiles()
    }

    /// `self` is `pre` with `tile` allocated in it.
    pub open spec fn adds_tile(&self, pre: &AtlasTexture, size: Size, tile: AtlasTile) -> bool {
        &&& self.texture_id() == pre.texture_id()
        &&& self.pixel_format() == pre.pixel_format()
        &&& self.size() == pre.size()
        &&& tile.texture_id == pre.texture_id()
        &&& tile.padding == 0
        &&& tile.bounds.size == size
        &&& !pre.tiles().contains_key(tile.tile_id.0)
        &&& self.tiles().dom() == pre.tiles().dom().insert(tile.tile_id.0)
        &&& forall|id: u32| #[trigger] pre.tiles().contains_key(id) ==> self.tiles()[id] == pre.tiles()[id]
        &&& bounds_in_rect(tile.bounds, self.tiles()[tile.tile_id.0])
        &&& tile.bounds.left() == self.tiles()[tile.tile_id.0].0
        &&& tile.bounds.top() == self.tiles()[tile.tile_id.0].1
    }

    /// Packs a tile of `size` into this texture, if its packer finds room.
    pub fn allocate(&mut self, size: Size) -> (r: Option<AtlasTile>)
        requires
            old(self).wf(),
        ensures
            final(self).wf(),
            r is None <==> old(self).refuses_tile(size),
            match r {
                Some(tile) => final(self).adds_tile(old(self), size, tile),
                None => final(self).same_as(old(self)) && old(self).declines(size),
            },
    {
        let allocation = packer_allocate(&mut self.allocator, size.width.0, size.height.0);
        match allocation {
            Some(al) => {
                let tile = AtlasTile {
                    texture_id: self.id,
                    tile_id: TileId(al.id),
                    padding: 0,
                    bounds: Bounds {
                        origin: Point { x: DevicePixels(al.min_x), y: DevicePixels(al.min_y) },
                        size,
                    },
                };
                proof {
                    lemma_packing_insert(old(self).tiles(), old(self).size(), al.id, al.rect());
                }
                Some(tile)
            },
            None => None,
        }
    }

    /// Frees every allocation; the texture itself stays.
    pub fn clear(&mut self)
        requires
            old(self).wf(),
        ensures
            final(self).wf(),
            final(self).texture_id() == old(self).texture_id(),
            final(self).pixel_format() == old(self).pixel_format(),
            final(self).size() == old(self).size(),
            final(self).tiles().is_empty(),
    {
        packer_clear(&mut self.allocator);
    }

    /// The width and height of the texture.
    pub fn size_of(&self) -> (r: (i32, i32))
        ensures
            r == self.size(),
    {
        packer_size(&self.allocator)
    }

    /// The size of one pixel in bytes.
    pub fn bytes_per_pixel(&self) -> (r: u8)
        ensures
            r == spec_bytes_per_pixel(self.pixel_format()),
    {
        self.format.bytes_per_pixel()
    }
}

/// A pool of textures of one kind: each knows its place and has the
/// kind's format, and every index fits the `u32` of a texture id.
pub open spec fn pool_wf(s: Seq<AtlasTexture>, kind: AtlasTextureKind) -> bool {
    &&& s.len() <= u32::MAX
    &&& forall|i: int|
        0 <= i < s.len() ==> {
            &&& (#[trigger] s[i]).texture_id() == AtlasTextureId { index: i as u32, kind }
            &&& s[i].pixel_format() == spec_format_of(kind)
            &&& s[i].wf()
        }
}

/// `new_pool` is `old_pool` with a tile of `size` packed in: into the
/// newest texture that took it, the newer ones having refused, or, when
/// every texture refused, into a new texture of `max(size, default)` made
/// at the end of the pool.
pub open spec fn pool_packs(
    old_pool: Seq<AtlasTexture>,
    new_pool: Seq<AtlasTexture>,
    size: Size,
    default: Size,
    tile: AtlasTile,
) -> bool {
    let i = tile.texture_id.index as int;
    &&& tile.padding == 0
    &&& tile.bounds.size == size
    &&& if i < old_pool.len() {
        &&& new_pool.len() == old_pool.len()
        &&& !old_pool[i].refuses_tile(size)
        &&& new_pool[i].adds_tile(&old_pool[i], size, tile)
        &&& forall|j: int| 0 <= j < old_pool.len() && j != i ==> #[trigger] new_pool[j].same_as(&old_pool[j])
        &&& forall|j: int| i < j < old_pool.len() ==> (#[trigger] old_pool[j]).declines(size)
    } else {
        &&& i == old_pool.len()
        &&& new_pool.len() == old_pool.len() + 1
        &&& forall|j: int| 0 <= j < old_pool.len() ==> #[trigger] new_pool[j].same_as(&old_pool[j])
        &&& forall|j: int| 0 <= j < old_pool.len() ==> (#[trigger] old_pool[j]).declines(size)
        &&& new_pool[i].texture_id() == tile.texture_id
        &&& new_pool[i].size() == texture_size_for(size, default)
        &&& new_pool[i].tiles().dom() == set![tile.tile_id.0]
        &&& bounds_in_rect(tile.bounds, new_pool[i].tiles()[tile.tile_id.0])
        &&& tile.bounds.left() == new_pool[i].tiles()[tile.tile_id.0].0
        &&& tile.bounds.top() == new_pool[i].tiles()[tile.tile_id.0].1
    }
}

/// Every texture of the old pool is still there with its size, and every
/// allocation in the same place.
pub open spec fn pool_keeps(old_pool: Seq<AtlasTexture>, new_pool: Seq<AtlasTexture>) -> bool {
    &&& old_pool.len() <= new_pool.len()
    &&& forall|j: int| 0 <= j < old_pool.len() ==> #[trigger] new_pool[j].size() == old_pool[j].size()
    &&& forall|j: int, id: u32|
        0 <= j < old_pool.len() && #[trigger] old_pool[j].tiles().contains_key(id) ==> new_pool[j].tiles().contains_key(id)
            && new_pool[j].tiles()[id] == old_pool[j].tiles()[id]
}

pub(crate) proof fn lemma_pool_packs_keeps(
    old_pool: Seq<AtlasTexture>,
    new_pool: Seq<AtlasTexture>,
    size: Size,
    default: Size,
    tile: AtlasTile,
)
    requires
        pool_packs(old_pool, new_pool, size, default, tile),
    ensures
        pool_keeps(old_pool, new_pool),
        new_pool[tile.texture_id.index as int].tiles().contains_key(tile.tile_id.0),
        bounds_in_rect(tile.bounds, new_pool[tile.texture_id.index as int].tiles()[tile.tile_id.0]),
        0 <= tile.texture_id.index < new_pool.len(),
{
    let i = tile.texture_id.index as int;
    assert forall|j: int| 0 <= j < old_pool.len() implies #[trigger] new_pool[j].size() == old_pool[j].size() by {
        if j == i {
            assert(new_pool[i].adds_tile(&old_pool[i], size, tile));
        } else {
            assert(new_pool[j].same_as(&old_pool[j]));
        }
    }
    assert forall|j: int, id: u32|
        0 <= j < old_pool.len() && #[trigger] old_pool[j].tiles().contains_key(id) implies new_pool[j].tiles().contains_key(
        id,
    ) && new_pool[j].tiles()[id] == old_pool[j].tiles()[id] by {
        if j == i {
            assert(new_pool[i].adds_tile(&old_pool[i], size, tile));
        } else {
            assert(new_pool[j].same_as(&old_pool[j]));
        }
    }
}

/// The side-wise maximum of a tile size and the default texture size.
pub open spec fn texture_size_for(size: Size, default: Size) -> (i32, i32) {
    let s = size.spec_max(default);
    (s.width.0, s.height.0)
}

/// Packs a tile of `size` into the newest texture of the pool that takes
/// it: the newest is likely the emptiest.
pub(crate) fn allocate_in_pool(textures: &mut Vec<AtlasTexture>, kind: AtlasTextureKind, size: Size) -> (r: Option<AtlasTile>)
    requires
        pool_wf(old(textures)@, kind),
    ensures
        pool_wf(final(textures)@, kind),
        final(textures)@.len() == old(textures)@.len(),
        match r {
            Some(tile) => {
                let i = tile.texture_id.index as int;
                &&& 0 <= i < old(textures)@.len()
                &&& !old(textures)@[i].refuses_tile(size)
                &&& final(textures)@[i].adds_tile(&old(textures)@[i], size, tile)
                &&& forall|j: int|
                    0 <= j < old(textures)@.len() && j != i ==> #[trigger] final(textures)@[j].same_as(
                        &old(textures)@[j],
                    )
                &&& forall|j: int| i < j < old(textures)@.len() ==> (#[trigger] old(textures)@[j]).declines(size)
            },
            None => forall|j: int|
                0 <= j < old(textures)@.len() ==> #[trigger] final(textures)@[j].same_as(&old(textures)@[j])
                    && old(textures)@[j].declines(size),
        },
{
    let mut i: usize = textures.len();
    while i > 0
        invariant
            0 <= i <= textures@.len(),
            textures@.len() == old(textures)@.len(),
            pool_wf(textures@, kind),
            forall|j: int| 0 <= j < i ==> #[trigger] textures@[j] == old(textures)@[j],
            forall|j: int|
                i <= j < textures@.len() ==> #[trigger] textures@[j].same_as(&old(textures)@[j])
                    && old(textures)@[j].declines(size),
        decreases i,
    {
        i = i - 1;
        assert(old(textures)@[i as int] == textures@[i as int]);
        assert(textures@[i as int].texture_id().index == i as u32);
        let ghost before = textures@;
        let r = textures[i].allocate(size);
        match r {
            Some(tile) => {
                assert(tile.texture_id.index as int == i);
                assert forall|j: int| i < j < old(textures)@.len() implies (
                #[trigger] old(textures)@[j]).declines(size) by {
                    assert(before[j].same_as(&old(textures)@[j]));
                }
                assert forall|j: int|
                    0 <= j < old(textures)@.len() && j != i implies #[trigger] textures@[j].same_as(
                        &old(textures)@[j],
                    ) by {
                    if j < i {
                        assert(textures@[j] == old(textures)@[j]);
                    }
                }
                return Some(tile);
            },
            None => {},
        }
    }
    None
}

/// Appends a texture of `max(min_size, default)` to the pool.
pub(crate) fn push_texture(textures: &mut Vec<AtlasTexture>, kind: AtlasTextureKind, min_size: Size, default: Size)
    requires
        pool_wf(old(textures)@, kind),
        old(textures)@.len() < u32::MAX,
        valid_tile_size(min_size),
        valid_tile_size(default),
    ensures
        pool_wf(final(textures)@, kind),
        final(textures)@.len() == old(textures)@.len() + 1,
        forall|j: int| 0 <= j < old(textures)@.len() ==> #[trigger] final(textures)@[j] == old(textures)@[j],
        final(textures)@.last().size() == texture_size_for(min_size, default),
        final(textures)@.last().tiles().is_empty(),
{
    let size = min_size.max(&default);
    let texture = AtlasTexture {
        id: AtlasTextureId { index: textures.len() as u32, kind },
        allocator: packer_new(size.width.0, size.height.0),
        format: kind.format(),
    };
    assert(packing_wf(texture.tiles(), texture.size()));
    textures.push(texture);
}

/// Packs a tile of `size` into the pool, making a new texture when every
/// texture refuses it.
pub(crate) fn allocate_or_grow(textures: &mut Vec<AtlasTexture>, kind: AtlasTextureKind, size: Size, default: Size) -> (r:
    AtlasTile)
    requires
        pool_wf(old(textures)@, kind),
        old(textures)@.len() < u32::MAX,
        valid_tile_size(size),
        valid_tile_size(default),
    ensures
        pool_wf(final(textures)@, kind),
        pool_packs(old(textures)@, final(textures)@, size, default, r),
        r.texture_id.kind == kind,
{
    match allocate_in_pool(textures, kind, size) {
        Some(tile) => tile,
        None => {
            let ghost refused = textures@;
            push_texture(textures, kind, size, default);
            let last = textures.len() - 1;
            assert(textures@[last as int].texture_id().index == last as u32);
            let fresh = textures[last].allocate(size);
            let tile = fresh.unwrap();
            assert forall|j: int| 0 <= j < old(textures)@.len() implies #[trigger] textures@[j].same_as(
                &old(textures)@[j],
            ) by {
                assert(refused[j].same_as(&old(textures)@[j]));
            }
            assert forall|j: int| 0 <= j < old(textures)@.len() implies (
            #[trigger] old(textures)@[j]).declines(size) by {
                assert(refused[j].same_as(&old(textures)@[j]));
            }
            assert(textures@[last as int].tiles().dom() =~= set![tile.tile_id.0]);
            tile
        },
    }
}

/// Frees every allocation of every texture of the pool.
pub(crate) fn clear_pool(textures: &mut Vec<AtlasTexture>, kind: AtlasTextureKind)
    requires
        pool_wf(old(textures)@, kind),
    ensures
        pool_wf(final(textures)@, kind),
        pool_cleared(old(textures)@, final(textures)@),
{
    let mut i: usize = 0;
    while i < textures.len()
        invariant
            0 <= i <= textures@.len(),
            textures@.len() == old(textures)@.len(),
            pool_wf(textures@, kind),
            forall|j: int| i <= j < textures@.len() ==> #[trigger] textures@[j] == old(textures)@[j],
            forall|j: int|
                0 <= j < i ==> {
                    &&& (#[trigger] textures@[j]).texture_id() == old(textures)@[j].texture_id()
                    &&& textures@[j].pixel_format() == old(textures)@[j].pixel_format()
                    &&& textures@[j].size() == old(textures)@[j].size()
                    &&& textures@[j].tiles().is_empty()
                },
        decreases textures@.len() - i,
    {
        textures[i].clear();
        i += 1;
    }
}

/// The same textures, each with nothing allocated.
pub open spec fn pool_cleared(old_pool: Seq<AtlasTexture>, new_pool: Seq<AtlasTexture>) -> bool {
    &&& new_pool.len() == old_pool.len()
    &&& forall|j: int|
        0 <= j < old_pool.len() ==> {
            &&& (#[trigger] new_pool[j]).texture_id() == old_pool[j].texture_id()
            &&& new_pool[j].pixel_format() == old_pool[j].pixel_format()
            &&& new_pool[j].size() == old_pool[j].size()
            &&& new_pool[j].tiles().is_empty()
        }
}

/// The ids of a pool of `n` textures of `kind`, in order.
pub open spec fn pool_ids(n: nat, kind: AtlasTextureKind) -> Seq<AtlasTextureId> {
    Seq::new(n, |i: int| AtlasTextureId { index: i as u32, kind })
}

/// Appends the ids of a pool of `n` textures of `kind` to `ids`.
pub(crate) fn push_pool_ids(ids: &mut Vec<AtlasTextureId>, n: usize, kind: AtlasTextureKind)
    requires
        n <= u32::MAX,
    ensures
        final(ids)@ == old(ids)@ + pool_ids(n as nat, kind),
{
    let mut i: usize = 0;
    while i < n
        invariant
            0 <= i <= n <= u32::MAX,
            ids@ == old(ids)@ + pool_ids(i as nat, kind),
        decreases n - i,
    {
        ids.push(AtlasTextureId { index: i as u32, kind });
        i += 1;
        assert(ids@ =~= old(ids)@ + pool_ids(i as nat, kind));
    }
}

} // verus!
