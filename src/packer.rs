//! The rectangle packer of each atlas texture: etagere's bucketed
//! shelf allocator, seen through what its source shows of it.
use vstd::prelude::*;

verus! {

/// The largest side, in pixels, that a packer is made with. etagere keeps
/// sides in `u16` and areas in `i32`, and a GPU texture of this side is
/// still within what common devices support.
pub const MAX_TEXTURE_SIDE: i32 = 16384;

/// A packed rectangle: `(min_x, min_y, max_x, max_y)`, maximum exclusive.
pub type PackedRect = (i32, i32, i32, i32);

/// etagere's `BucketedAtlasAllocator`, carried as an opaque value; what it
/// holds is seen through `packed` and `extent`.
#[verifier::external_type_specification]
#[verifier::external_body]
pub struct ExBucketedAtlasAllocator(etagere::BucketedAtlasAllocator);

/// The rectangles that are allocated in a packer, by allocation id.
pub uninterp spec fn packed(a: etagere::BucketedAtlasAllocator) -> Map<u32, PackedRect>;

/// The width and height that a packer was made with.
pub uninterp spec fn extent(a: etagere::BucketedAtlasAllocator) -> (i32, i32);

/// The packer was made by `BucketedAtlasAllocator::new`, with the default
/// options (no alignment, one column, horizontal shelves), and has never
/// been asked to deallocate.
pub uninterp spec fn default_packer(a: etagere::BucketedAtlasAllocator) -> bool;

/// etagere's answer to a request of `width` by `height` on this packer:
/// it finds no room and returns no allocation.
pub uninterp spec fn refuses(a: etagere::BucketedAtlasAllocator, width: i32, height: i32) -> bool;

/// One allocation handed out by a packer.
#[derive(Clone, Copy, Debug)]
pub struct Allocation {
    pub id: u32,
    pub min_x: i32,
    pub min_y: i32,
    pub max_x: i32,
    pub max_y: i32,
}

impl Allocation {
    pub open spec fn rect(self) -> PackedRect {
        (self.min_x, self.min_y, self.max_x, self.max_y)
    }
}

/// The two rectangles share no pixel.
pub open spec fn rects_disjoint(a: PackedRect, b: PackedRect) -> bool {
    a.2 <= b.0 || b.2 <= a.0 || a.3 <= b.1 || b.3 <= a.1
}

/// Relies on etagere's `BucketedAtlasAllocator::new`: a packer of the given
/// size with nothing allocated. It asserts that each side is below
/// `u16::MAX`, which the bound on the sides keeps.
#[verifier::external_body]
pub(crate) fn packer_new(width: i32, height: i32) -> (a: etagere::BucketedAtlasAllocator)
    requires
        0 < width <= MAX_TEXTURE_SIDE,
        0 < height <= MAX_TEXTURE_SIDE,
    ensures
        packed(a) =~= Map::empty(),
        extent(a) == (width, height),
        default_packer(a),
{
    etagere::BucketedAtlasAllocator::new(etagere::size2(width, height))
}

/// Relies on etagere's `BucketedAtlasAllocator::clear`: drops every
/// allocation and keeps the size and the options.
#[verifier::external_body]
pub(crate) fn packer_clear(a: &mut etagere::BucketedAtlasAllocator)
    ensures
        packed(*final(a)) =~= Map::empty(),
        extent(*final(a)) == extent(*old(a)),
        default_packer(*final(a)) == default_packer(*old(a)),
{
    a.clear()
}

/// Relies on etagere's `BucketedAtlasAllocator::size`: the size the packer
/// was made with.
#[verifier::external_body]
pub(crate) fn packer_size(a: &etagere::BucketedAtlasAllocator) -> (r: (i32, i32))
    ensures
        r == extent(*a),
{
    let size = a.size();
    (size.width, size.height)
}

/// Relies on etagere's `BucketedAtlasAllocator::allocate`, on a packer
/// made with the default options (no alignment, one column, horizontal
/// shelves) that was never asked to deallocate:
/// - it returns no allocation exactly when it refuses (`refuses`); it
///   refuses an empty size and one that does not fit the packer;
/// - otherwise it returns a rectangle inside the packer that overlaps no
///   live allocation, exactly `width` wide and at least `height` tall,
///   under an id that no live allocation has;
/// - on a packer with nothing allocated it takes a new shelf at the top and
///   succeeds for every size that fits.
///
/// Since nothing is deallocated, no shelf is ever empty, so shelves are
/// never coalesced.
#[verifier::external_body]
pub(crate) fn packer_allocate(a: &mut etagere::BucketedAtlasAllocator, width: i32, height: i32) -> (r:
    Option<Allocation>)
    requires
        default_packer(*old(a)),
        0 < extent(*old(a)).0 <= MAX_TEXTURE_SIDE,
        0 < extent(*old(a)).1 <= MAX_TEXTURE_SIDE,
    ensures
        extent(*final(a)) == extent(*old(a)),
        default_packer(*final(a)),
        r is None <==> refuses(*old(a), width, height),
        match r {
            Some(al) => {
                &&& 0 < width && 0 < height
                &&& !packed(*old(a)).contains_key(al.id)
                &&& packed(*final(a)) == packed(*old(a)).insert(al.id, al.rect())
                &&& 0 <= al.min_x && al.max_x <= extent(*old(a)).0
                &&& 0 <= al.min_y && al.max_y <= extent(*old(a)).1
                &&& al.max_x - al.min_x == width
                &&& al.max_y - al.min_y >= height
                &&& forall|id: u32| #[trigger]
                    packed(*old(a)).contains_key(id) ==> rects_disjoint(
                        packed(*old(a))[id],
                        al.rect(),
                    )
            },
            None => {
                &&& packed(*final(a)) == packed(*old(a))
                &&& (packed(*old(a)).is_empty() ==> !(0 < width <= extent(*old(a)).0 && 0 < height
                    <= extent(*old(a)).1))
            },
        },
{
    match a.allocate(etagere::size2(width, height)) {
        Some(al) => Some(
            Allocation {
                id: al.id.serialize(),
                min_x: al.rectangle.min.x,
                min_y: al.rectangle.min.y,
                max_x: al.rectangle.max.x,
                max_y: al.rectangle.max.y,
            },
        ),
        None => None,
    }
}

} // verus!
