//! The upload belt: staging chunks for host-to-GPU copies, reused only once
//! the GPU has finished reading them.
//!
//! The belt decides; the caller owns the GPU buffers. A chunk is known by
//! the number the belt gives it. When `alloc` hands out a piece of a chunk
//! the caller has not seen yet, the caller creates a buffer of
//! [`BladeBelt::chunk_size`] bytes in [`BladeBeltDescriptor::memory`].
//! Fences are of any type `F` that the caller can test, without blocking,
//! through the `is_complete` predicate handed to the allocating calls.
use vstd::prelude::*;
use vstd::layout::{align_of, layout_for_type_is_valid, size_of};

verus! {

/// Where the staging chunks live.
#[derive(Clone, Copy, Debug, PartialEq, Eq, Hash)]
pub enum Memory {
    /// Only the GPU sees it.
    Device,
    /// Both sides see it.
    Shared,
    /// The host writes it and the GPU reads it.
    Upload,
}

/// How a belt makes its chunks.
#[derive(Clone, Copy, Debug, PartialEq, Eq, Hash)]
pub struct BladeBeltDescriptor {
    pub memory: Memory,
    /// No chunk is made smaller than this.
    pub min_chunk_size: u64,
}

/// A staging chunk: the number it is known by and its capacity in bytes.
#[derive(Clone, Copy, Debug, PartialEq, Eq, Hash)]
pub struct ReusableBuffer {
    pub chunk: usize,
    pub size: u64,
}

/// A place in a staging chunk: writes for one upload start here.
#[derive(Clone, Copy, Debug, PartialEq, Eq, Hash)]
pub struct BufferPiece {
    pub chunk: usize,
    pub offset: u64,
}

/// A belt of staging chunks. Active chunks take new writes at their
/// cursor; retired chunks carry the fence of the frame that last read them
/// and are taken again only once that fence has been seen to pass.
pub struct BladeBelt<F> {
    desc: BladeBeltDescriptor,
    buffers: Vec<(ReusableBuffer, F)>,
    active: Vec<(ReusableBuffer, u64)>,
    chunk_count: usize,
}

/// The bump allocation of `size` bytes fits in this active chunk.
pub open spec fn fits_active(entry: (ReusableBuffer, u64), size: u64) -> bool {
    entry.1 + size <= entry.0.size
}

/// `i` is the first active chunk with room for `size` bytes.
pub open spec fn first_fit(active: Seq<(ReusableBuffer, u64)>, size: u64, i: int) -> bool {
    &&& 0 <= i < active.len()
    &&& fits_active(active[i], size)
    &&& forall|k: int| 0 <= k < i ==> !fits_active(#[trigger] active[k], size)
}

pub open spec fn spec_max_u64(a: u64, b: u64) -> u64 {
    if a >= b {
        a
    } else {
        b
    }
}

/// `offset` rounded up to a multiple of `alignment`.
pub open spec fn aligned_offset(offset: u64, alignment: u64) -> u64 {
    if offset % alignment == 0 {
        offset
    } else {
        (offset + (alignment - offset % alignment)) as u64
    }
}

proof fn lemma_aligned_offset(offset: u64, alignment: u64, total: u64)
    requires
        alignment > 0,
        total >= 1,
        offset + alignment + total - 1 <= u64::MAX,
    ensures
        aligned_offset(offset, alignment) % alignment == 0,
        aligned_offset(offset, alignment) + total <= offset + alignment + total - 1,
{
    let rem = offset % alignment;
    assert(0 <= rem < alignment) by (nonlinear_arith)
        requires
            alignment > 0,
            rem == offset % alignment,
    ;
    if rem != 0 {
        assert((offset + (alignment - rem)) % (alignment as int) == 0) by (nonlinear_arith)
            requires
                alignment > 0,
                rem == offset % alignment,
        ;
    }
}

/// Some active or retired chunk has number `c`.
pub open spec fn chunk_held<F>(a: Seq<(ReusableBuffer, u64)>, b: Seq<(ReusableBuffer, F)>, c: usize) -> bool {
    ||| exists|i: int| 0 <= i < a.len() && (#[trigger] a[i]).0.chunk == c
    ||| exists|j: int| 0 <= j < b.len() && (#[trigger] b[j]).0.chunk == c
}

/// The belt's invariant over its two lists and its chunk count.
pub open spec fn belt_wf<F>(a: Seq<(ReusableBuffer, u64)>, b: Seq<(ReusableBuffer, F)>, n: nat) -> bool {
    &&& forall|i: int| 0 <= i < a.len() ==> #[trigger] a[i].1 <= a[i].0.size
    &&& forall|i: int| 0 <= i < a.len() ==> #[trigger] a[i].0.chunk < n
    &&& forall|i: int| 0 <= i < b.len() ==> #[trigger] b[i].0.chunk < n
    &&& forall|i: int, j: int|
        0 <= i < a.len() && 0 <= j < a.len() && i != j ==> #[trigger] a[i].0.chunk
            != #[trigger] a[j].0.chunk
    &&& forall|i: int, j: int|
        0 <= i < b.len() && 0 <= j < b.len() && i != j ==> #[trigger] b[i].0.chunk
            != #[trigger] b[j].0.chunk
    &&& forall|i: int, j: int|
        0 <= i < a.len() && 0 <= j < b.len() ==> #[trigger] a[i].0.chunk != #[trigger] b[j].0.chunk
    &&& forall|c: usize| c < n ==> #[trigger] chunk_held(a, b, c)
}

/// Moving an active chunk's cursor keeps the invariant.
proof fn lemma_wf_bump<F>(a: Seq<(ReusableBuffer, u64)>, b: Seq<(ReusableBuffer, F)>, n: nat, i: int, c: u64)
    requires
        belt_wf(a, b, n),
        0 <= i < a.len(),
        c <= a[i].0.size,
    ensures
        belt_wf(a.update(i, (a[i].0, c)), b, n),
{
    let a2 = a.update(i, (a[i].0, c));
    assert forall|k: int| 0 <= k < a.len() implies #[trigger] a2[k].0 == a[k].0 by {}
    assert forall|x: usize| x < n implies #[trigger] chunk_held(a2, b, x) by {
        assert(chunk_held(a, b, x));
        if exists|k: int| 0 <= k < a.len() && (#[trigger] a[k]).0.chunk == x {
            let k = choose|k: int| 0 <= k < a.len() && (#[trigger] a[k]).0.chunk == x;
            assert(a2[k].0.chunk == x);
        }
    }
}

/// Taking a retired chunk back into use keeps the invariant.
proof fn lemma_wf_reuse<F>(a: Seq<(ReusableBuffer, u64)>, b: Seq<(ReusableBuffer, F)>, n: nat, j: int, c: u64)
    requires
        belt_wf(a, b, n),
        0 <= j < b.len(),
        c <= b[j].0.size,
    ensures
        belt_wf(a.push((b[j].0, c)), b.remove(j), n),
{
    let a2 = a.push((b[j].0, c));
    let b2 = b.remove(j);
    assert forall|k: int| 0 <= k < b2.len() implies #[trigger] b2[k] == b[if k < j { k } else { k + 1 }] by {}
    assert forall|k: int| 0 <= k < a.len() implies #[trigger] a2[k] == a[k] by {}
    assert forall|x: int, y: int| 0 <= x < a2.len() && 0 <= y < b2.len() implies #[trigger] a2[x].0.chunk
        != #[trigger] b2[y].0.chunk by {
        let y0 = if y < j { y } else { y + 1 };
        assert(b2[y] == b[y0]);
        if x < a.len() {
            assert(a2[x] == a[x]);
        }
    }
    assert forall|x: int, y: int| 0 <= x < a2.len() && 0 <= y < a2.len() && x != y implies #[trigger] a2[x].0.chunk
        != #[trigger] a2[y].0.chunk by {
        if x < a.len() {
            assert(a2[x] == a[x]);
        }
        if y < a.len() {
            assert(a2[y] == a[y]);
        }
    }
    assert forall|x: int, y: int| 0 <= x < b2.len() && 0 <= y < b2.len() && x != y implies #[trigger] b2[x].0.chunk
        != #[trigger] b2[y].0.chunk by {
        let x0 = if x < j { x } else { x + 1 };
        let y0 = if y < j { y } else { y + 1 };
        assert(b2[x] == b[x0]);
        assert(b2[y] == b[y0]);
    }
    assert forall|x: usize| x < n implies #[trigger] chunk_held(a2, b2, x) by {
        assert(chunk_held(a, b, x));
        if exists|k: int| 0 <= k < a.len() && (#[trigger] a[k]).0.chunk == x {
            let k = choose|k: int| 0 <= k < a.len() && (#[trigger] a[k]).0.chunk == x;
            assert(a2[k].0.chunk == x);
        } else {
            let k = choose|k: int| 0 <= k < b.len() && (#[trigger] b[k]).0.chunk == x;
            if k == j {
                assert(a2[a.len() as int].0.chunk == x);
            } else if k < j {
                assert(b2[k].0.chunk == x);
            } else {
                assert(b2[k - 1].0.chunk == x);
            }
        }
    }
}

/// Retiring every active chunk, in order, keeps the invariant.
proof fn lemma_wf_flush<F>(
    a: Seq<(ReusableBuffer, u64)>,
    b: Seq<(ReusableBuffer, F)>,
    n: nat,
    b2: Seq<(ReusableBuffer, F)>,
)
    requires
        belt_wf(a, b, n),
        b2.len() == b.len() + a.len(),
        forall|k: int| 0 <= k < b.len() ==> #[trigger] b2[k].0 == b[k].0,
        forall|k: int| 0 <= k < a.len() ==> #[trigger] b2[b.len() + k].0 == a[k].0,
    ensures
        belt_wf(Seq::<(ReusableBuffer, u64)>::empty(), b2, n),
{
    assert forall|k: int| 0 <= k < b2.len() implies #[trigger] b2[k].0.chunk < n by {
        if k >= b.len() {
            assert(b2[b.len() + (k - b.len())].0 == a[k - b.len()].0);
        }
    }
    assert forall|x: int, y: int| 0 <= x < b2.len() && 0 <= y < b2.len() && x != y implies #[trigger] b2[x].0.chunk
        != #[trigger] b2[y].0.chunk by {
        if x >= b.len() {
            assert(b2[b.len() + (x - b.len())].0 == a[x - b.len()].0);
        }
        if y >= b.len() {
            assert(b2[b.len() + (y - b.len())].0 == a[y - b.len()].0);
        }
    }
    let e = Seq::<(ReusableBuffer, u64)>::empty();
    assert forall|x: usize| x < n implies #[trigger] chunk_held(e, b2, x) by {
        assert(chunk_held(a, b, x));
        if exists|k: int| 0 <= k < a.len() && (#[trigger] a[k]).0.chunk == x {
            let k = choose|k: int| 0 <= k < a.len() && (#[trigger] a[k]).0.chunk == x;
            assert(b2[b.len() + k].0.chunk == x);
        } else {
            let k = choose|k: int| 0 <= k < b.len() && (#[trigger] b[k]).0.chunk == x;
            assert(b2[k].0.chunk == x);
        }
    }
}

/// Making a new chunk under the next number keeps the invariant.
proof fn lemma_wf_fresh<F>(a: Seq<(ReusableBuffer, u64)>, b: Seq<(ReusableBuffer, F)>, n: nat, rb: ReusableBuffer, c: u64)
    requires
        belt_wf(a, b, n),
        rb.chunk == n,
        c <= rb.size,
    ensures
        belt_wf(a.push((rb, c)), b, n + 1),
{
    let a2 = a.push((rb, c));
    assert forall|k: int| 0 <= k < a.len() implies #[trigger] a2[k] == a[k] by {}
    assert forall|x: int, y: int| 0 <= x < a2.len() && 0 <= y < a2.len() && x != y implies #[trigger] a2[x].0.chunk
        != #[trigger] a2[y].0.chunk by {
        if x < a.len() {
            assert(a2[x] == a[x]);
        }
        if y < a.len() {
            assert(a2[y] == a[y]);
        }
    }
    assert forall|x: int, y: int| 0 <= x < a2.len() && 0 <= y < b.len() implies #[trigger] a2[x].0.chunk
        != #[trigger] b[y].0.chunk by {
        if x < a.len() {
            assert(a2[x] == a[x]);
        }
    }
    assert forall|x: usize| x < n + 1 implies #[trigger] chunk_held(a2, b, x) by {
        if x == n {
            assert(a2[a.len() as int].0.chunk == x);
        } else {
            assert(chunk_held(a, b, x));
            if exists|k: int| 0 <= k < a.len() && (#[trigger] a[k]).0.chunk == x {
                let k = choose|k: int| 0 <= k < a.len() && (#[trigger] a[k]).0.chunk == x;
                assert(a2[k].0.chunk == x);
            } else {
                let k = choose|k: int| 0 <= k < b.len() && (#[trigger] b[k]).0.chunk == x;
                assert(b[k].0.chunk == x);
            }
        }
    }
}

impl<F: Clone> BladeBelt<F> {
    /// The chunks that take new writes, each with its cursor.
    pub closed spec fn active(&self) -> Seq<(ReusableBuffer, u64)> {
        self.active@
    }

    /// The chunks that wait for their fence, each with it.
    pub closed spec fn retired(&self) -> Seq<(ReusableBuffer, F)> {
        self.buffers@
    }

    /// How many chunks were made since the belt was made or destroyed; the
    /// next chunk gets this number.
    pub closed spec fn chunks_made(&self) -> nat {
        self.chunk_count as nat
    }

    pub closed spec fn descriptor(&self) -> BladeBeltDescriptor {
        self.desc
    }

    /// Cursors stay inside their chunk, and every chunk number is below
    /// the count and held by one chunk only.
    pub open spec fn wf(&self) -> bool {
        belt_wf(self.active(), self.retired(), self.chunks_made())
    }

    /// What an allocation of `size` bytes did, polling fences through
    /// `is_complete`:
    /// - with an active chunk that has room, the first such one hands out
    ///   the bytes at its cursor and moves the cursor on;
    /// - otherwise a retired chunk large enough whose fence was seen to pass
    ///   becomes active with `size` bytes used and hands out its start; the
    ///   large enough ones before it were polled and had not passed;
    /// - otherwise, every large enough retired chunk was polled and had not
    ///   passed, and a new chunk of `max(size, min_chunk_size)` bytes becomes
    ///   active with `size` bytes used and hands out its start.
    pub open spec fn allocate_post<P: Fn(&F) -> bool>(
        pre: &Self,
        post: &Self,
        size: u64,
        is_complete: &P,
        r: BufferPiece,
    ) -> bool {
        &&& post.descriptor() == pre.descriptor()
        &&& if exists|i: int| 0 <= i < pre.active().len() && fits_active(#[trigger] pre.active()[i], size) {
            exists|i: int|
                #![trigger pre.active()[i]]
                first_fit(pre.active(), size, i) && r == BufferPiece {
                    chunk: pre.active()[i].0.chunk,
                    offset: pre.active()[i].1,
                } && post.active() == pre.active().update(i, (pre.active()[i].0, (pre.active()[i].1 + size) as u64))
                    && post.retired() == pre.retired() && post.chunks_made() == pre.chunks_made()
        } else {
            &&& r.offset == 0
            &&& post.active().len() == pre.active().len() + 1
            &&& post.active().drop_last() == pre.active()
            &&& post.active().last().0.chunk == r.chunk
            &&& post.active().last().1 == size
            &&& {
                ||| exists|j: int|
                    #![trigger pre.retired()[j]]
                    0 <= j < pre.retired().len() && size <= pre.retired()[j].0.size && is_complete.ensures(
                        (&pre.retired()[j].1,),
                        true,
                    ) && (forall|k: int|
                        0 <= k < j && size <= #[trigger] pre.retired()[k].0.size ==> is_complete.ensures(
                            (&pre.retired()[k].1,),
                            false,
                        )) && post.active().last().0 == pre.retired()[j].0 && post.retired()
                        == pre.retired().remove(j) && post.chunks_made() == pre.chunks_made()
                ||| (forall|k: int|
                    0 <= k < pre.retired().len() && size <= #[trigger] pre.retired()[k].0.size
                        ==> is_complete.ensures((&pre.retired()[k].1,), false))
                    && post.active().last().0 == (ReusableBuffer {
                    chunk: pre.chunks_made() as usize,
                    size: spec_max_u64(size, pre.descriptor().min_chunk_size),
                }) && post.retired() == pre.retired() && post.chunks_made() == pre.chunks_made() + 1
            }
        }
    }

    /// What `alloc_data` did: one allocation of `align_of::<T>() + n - 1`
    /// bytes, `n` being the size of the data, whose start was rounded up to
    /// the alignment; the data fits in what was allocated.
    pub open spec fn alloc_data_post<T, P: Fn(&F) -> bool>(
        pre: &Self,
        post: &Self,
        data: Seq<T>,
        is_complete: &P,
        r: BufferPiece,
    ) -> bool {
        exists|raw: BufferPiece|
            {
                &&& Self::allocate_post(
                    pre,
                    post,
                    (align_of::<T>() + data.len() * size_of::<T>() - 1) as u64,
                    is_complete,
                    raw,
                )
                &&& r.chunk == raw.chunk
                &&& r.offset == aligned_offset(raw.offset, align_of::<T>() as u64)
                &&& r.offset + data.len() * size_of::<T>() <= raw.offset + align_of::<T>() + data.len()
                    * size_of::<T>() - 1
            }
    }

    /// What `flush` did: every active chunk, in order, joined the retired
    /// ones under a clone of the fence.
    pub open spec fn flush_post(pre: &Self, post: &Self, sp: F) -> bool {
        &&& post.descriptor() == pre.descriptor()
        &&& post.chunks_made() == pre.chunks_made()
        &&& post.active() == Seq::<(ReusableBuffer, u64)>::empty()
        &&& post.retired().len() == pre.retired().len() + pre.active().len()
        &&& forall|k: int| 0 <= k < pre.retired().len() ==> #[trigger] post.retired()[k] == pre.retired()[k]
        &&& forall|k: int|
            0 <= k < pre.active().len() ==> #[trigger] post.retired()[pre.retired().len() + k].0 == pre.active()[k].0
                && cloned(sp, post.retired()[pre.retired().len() + k].1)
    }

    /// A belt with no chunks.
    pub fn new(desc: BladeBeltDescriptor) -> (r: Self)
        ensures
            r.wf(),
            r.descriptor() == desc,
            r.active() == Seq::<(ReusableBuffer, u64)>::empty(),
            r.retired() == Seq::<(ReusableBuffer, F)>::empty(),
            r.chunks_made() == 0,
    {
        BladeBelt { desc, buffers: Vec::new(), active: Vec::new(), chunk_count: 0 }
    }

    /// The capacity of chunk `chunk`, if the belt holds it.
    pub fn chunk_size(&self, chunk: usize) -> (r: Option<u64>)
        requires
            self.wf(),
        ensures
            r is None <==> chunk >= self.chunks_made(),
            r matches Some(size) ==> (exists|i: int|
                0 <= i < self.active().len() && #[trigger] self.active()[i].0 == (ReusableBuffer { chunk, size }))
                || (exists|i: int|
                0 <= i < self.retired().len() && #[trigger] self.retired()[i].0 == (ReusableBuffer { chunk, size })),
            r is None ==> (forall|i: int| 0 <= i < self.active().len() ==> #[trigger] self.active()[i].0.chunk != chunk)
                && (forall|i: int| 0 <= i < self.retired().len() ==> #[trigger] self.retired()[i].0.chunk != chunk),
    {
        let mut i: usize = 0;
        while i < self.active.len()
            invariant
                self.wf(),
                0 <= i <= self.active@.len(),
                forall|k: int| 0 <= k < i ==> #[trigger] self.active@[k].0.chunk != chunk,
            decreases self.active@.len() - i,
        {
            if self.active[i].0.chunk == chunk {
                assert(self.active()[i as int].0 == ReusableBuffer { chunk, size: self.active@[i as int].0.size });
                assert(self.active()[i as int].0.chunk < self.chunks_made());
                return Some(self.active[i].0.size);
            }
            i += 1;
        }
        let mut j: usize = 0;
        while j < self.buffers.len()
            invariant
                self.wf(),
                0 <= j <= self.buffers@.len(),
                forall|k: int| 0 <= k < self.active@.len() ==> #[trigger] self.active@[k].0.chunk != chunk,
                forall|k: int| 0 <= k < j ==> #[trigger] self.buffers@[k].0.chunk != chunk,
            decreases self.buffers@.len() - j,
        {
            if self.buffers[j].0.chunk == chunk {
                assert(self.retired()[j as int].0 == ReusableBuffer { chunk, size: self.buffers@[j as int].0.size });
                assert(self.retired()[j as int].0.chunk < self.chunks_made());
                return Some(self.buffers[j].0.size);
            }
            j += 1;
        }
        assert(!chunk_held(self.active(), self.retired(), chunk));
        None
    }

    /// How the belt makes its chunks.
    pub fn descriptor_of(&self) -> (r: BladeBeltDescriptor)
        ensures
            r == self.descriptor(),
    {
        self.desc
    }

    /// How many chunks were made since the belt was made or destroyed.
    pub fn chunk_count(&self) -> (r: usize)
        ensures
            r == self.chunks_made(),
    {
        self.chunk_count
    }

    /// Retires every active chunk under the fence of the frame that was just
    /// submitted: no new write lands in them until that fence has passed.
    pub fn flush(&mut self, sp: &F)
        requires
            old(self).wf(),
        ensures
            final(self).wf(),
            Self::flush_post(old(self), final(self), *sp),
    {
        let ghost b0 = self.buffers@;
        let mut i: usize = 0;
        while i < self.active.len()
            invariant
                self.desc == old(self).desc,
                self.chunk_count == old(self).chunk_count,
                self.active@ == old(self).active@,
                b0 == old(self).buffers@,
                0 <= i <= self.active@.len(),
                self.buffers@.len() == b0.len() + i,
                forall|k: int| 0 <= k < b0.len() ==> #[trigger] self.buffers@[k] == b0[k],
                forall|k: int|
                    0 <= k < i ==> #[trigger] self.buffers@[b0.len() + k].0 == self.active@[k].0 && cloned(
                        *sp,
                        self.buffers@[b0.len() + k].1,
                    ),
            decreases self.active@.len() - i,
        {
            let rb = self.active[i].0;
            let fence = sp.clone();
            assert(cloned(*sp, fence));
            let ghost prev = self.buffers@;
            self.buffers.push((rb, fence));
            assert(forall|k: int| 0 <= k < prev.len() ==> #[trigger] self.buffers@[k] == prev[k]);
            assert(self.buffers@[b0.len() + i] == (rb, fence));
            assert forall|k: int| 0 <= k < i + 1 implies #[trigger] self.buffers@[b0.len() + k].0
                == self.active@[k].0 && cloned(*sp, self.buffers@[b0.len() + k].1) by {
                if k < i {
                    assert(self.buffers@[b0.len() + k] == prev[b0.len() + k]);
                }
            }
            i += 1;
        }
        proof {
            lemma_wf_flush(old(self).active@, b0, self.chunk_count as nat, self.buffers@);
        }
        self.active.clear();
    }

    /// Releases every chunk: the numbers of the retired ones, then of the
    /// active ones, for the caller to free. The belt is empty afterwards.
    pub fn destroy(&mut self) -> (r: Vec<usize>)
        requires
            old(self).wf(),
        ensures
            final(self).wf(),
            final(self).descriptor() == old(self).descriptor(),
            final(self).active() == Seq::<(ReusableBuffer, u64)>::empty(),
            final(self).retired() == Seq::<(ReusableBuffer, F)>::empty(),
            final(self).chunks_made() == 0,
            r@ == old(self).retired().map_values(|e: (ReusableBuffer, F)| e.0.chunk) + old(self).active().map_values(
                |e: (ReusableBuffer, u64)| e.0.chunk,
            ),
    {
        let mut r: Vec<usize> = Vec::new();
        let mut i: usize = 0;
        while i < self.buffers.len()
            invariant
                *self == *old(self),
                0 <= i <= self.buffers@.len(),
                r@ == self.buffers@.subrange(0, i as int).map_values(|e: (ReusableBuffer, F)| e.0.chunk),
            decreases self.buffers@.len() - i,
        {
            r.push(self.buffers[i].0.chunk);
            i += 1;
            assert(self.buffers@.subrange(0, i as int).map_values(|e: (ReusableBuffer, F)| e.0.chunk)
                =~= r@);
        }
        assert(self.buffers@.subrange(0, i as int) =~= self.buffers@);
        let ghost n = r@.len();
        let mut i: usize = 0;
        while i < self.active.len()
            invariant
                *self == *old(self),
                0 <= i <= self.active@.len(),
                n == self.buffers@.len(),
                r@ == self.buffers@.map_values(|e: (ReusableBuffer, F)| e.0.chunk) + self.active@.subrange(
                    0,
                    i as int,
                ).map_values(|e: (ReusableBuffer, u64)| e.0.chunk),
            decreases self.active@.len() - i,
        {
            r.push(self.active[i].0.chunk);
            i += 1;
            assert(self.buffers@.map_values(|e: (ReusableBuffer, F)| e.0.chunk) + self.active@.subrange(
                0,
                i as int,
            ).map_values(|e: (ReusableBuffer, u64)| e.0.chunk) =~= r@);
        }
        assert(self.active@.subrange(0, i as int) =~= self.active@);
        self.buffers.clear();
        self.active.clear();
        self.chunk_count = 0;
        r
    }

    /// Hands out staging space for `data`, at an offset aligned for `T`:
    /// one allocation of `align_of::<T>() + size - 1` bytes, whose start is
    /// then rounded up to the alignment. The caller copies `data` there.
    #[verifier::rlimit(40)]
    pub fn alloc_data<T, P: Fn(&F) -> bool>(&mut self, data: &[T], is_complete: &P) -> (r: BufferPiece)
        requires
            old(self).wf(),
            old(self).chunks_made() < usize::MAX,
            forall|f: &F| is_complete.requires((f,)),
            data@.len() > 0,
            size_of::<T>() > 0,
            data@.len() * size_of::<T>() <= usize::MAX,
            data@.len() * size_of::<T>() + align_of::<T>() <= u64::MAX,
        ensures
            final(self).wf(),
            Self::alloc_data_post(old(self), final(self), data@, is_complete, r),
            r.offset % align_of::<T>() as u64 == 0,
    {
        layout_for_type_is_valid::<T>();
        let alignment = core::mem::align_of::<T>() as u64;
        let total_bytes = data.len() * core::mem::size_of::<T>();
        assert(total_bytes >= 1) by (nonlinear_arith)
            requires
                total_bytes == data@.len() * size_of::<T>(),
                data@.len() > 0,
                size_of::<T>() > 0,
        ;
        let request = alignment + (total_bytes - 1) as u64;
        let raw = self.allocate(request, is_complete);
        proof {
            Self::lemma_piece_in_chunk(*old(self), *self, request, is_complete, raw);
            lemma_aligned_offset(raw.offset, alignment, total_bytes as u64);
        }
        let rem = raw.offset % alignment;
        let offset = if rem != 0 {
            raw.offset + (alignment - rem)
        } else {
            raw.offset
        };
        BufferPiece { chunk: raw.chunk, offset }
    }

    /// A piece that `allocate` handed out is the last `size` bytes before
    /// the cursor of an active chunk, so it lies inside that chunk.
    pub proof fn lemma_piece_in_chunk<P: Fn(&F) -> bool>(
        pre: Self,
        post: Self,
        size: u64,
        is_complete: &P,
        r: BufferPiece,
    )
        requires
            post.wf(),
            Self::allocate_post(&pre, &post, size, is_complete, r),
        ensures
            exists|i: int|
                0 <= i < post.active().len() && #[trigger] post.active()[i].0.chunk == r.chunk && r.offset
                    + size == post.active()[i].1,
            r.offset + size <= u64::MAX,
    {
        if exists|i: int| 0 <= i < pre.active().len() && fits_active(#[trigger] pre.active()[i], size) {
            let i = choose|i: int|
                #![trigger pre.active()[i]]
                first_fit(pre.active(), size, i) && r == BufferPiece {
                    chunk: pre.active()[i].0.chunk,
                    offset: pre.active()[i].1,
                } && post.active() == pre.active().update(i, (pre.active()[i].0, (pre.active()[i].1 + size) as u64));
            assert(post.active()[i].0.chunk == r.chunk);
            assert(post.active()[i].1 <= post.active()[i].0.size);
        } else {
            let i = post.active().len() - 1;
            assert(post.active()[i].0.chunk == r.chunk);
            assert(post.active()[i].1 <= post.active()[i].0.size);
        }
    }

    /// No premature reuse: when `allocate` hands out a piece of a chunk
    /// that was waiting for its fence, that fence was polled during the
    /// call and had passed.
    pub proof fn lemma_retired_reused_only_after_fence<P: Fn(&F) -> bool>(
        pre: Self,
        post: Self,
        size: u64,
        is_complete: &P,
        r: BufferPiece,
        j: int,
    )
        requires
            pre.wf(),
            Self::allocate_post(&pre, &post, size, is_complete, r),
            0 <= j < pre.retired().len(),
            pre.retired()[j].0.chunk == r.chunk,
        ensures
            is_complete.ensures((&pre.retired()[j].1,), true),
    {
        if exists|i: int| 0 <= i < pre.active().len() && fits_active(#[trigger] pre.active()[i], size) {
            let i = choose|i: int|
                #![trigger pre.active()[i]]
                first_fit(pre.active(), size, i) && r == BufferPiece {
                    chunk: pre.active()[i].0.chunk,
                    offset: pre.active()[i].1,
                } && post.active() == pre.active().update(i, (pre.active()[i].0, (pre.active()[i].1 + size) as u64));
            assert(pre.active()[i].0.chunk != pre.retired()[j].0.chunk);
        } else if post.chunks_made() == pre.chunks_made() + 1 {
            assert(pre.retired()[j].0.chunk < pre.chunks_made());
        } else {
            let j2 = choose|j2: int|
                #![trigger pre.retired()[j2]]
                0 <= j2 < pre.retired().len() && size <= pre.retired()[j2].0.size && is_complete.ensures(
                    (&pre.retired()[j2].1,),
                    true,
                ) && post.active().last().0 == pre.retired()[j2].0;
            assert(j2 == j);
        }
    }

    /// Writers never overlap: of two pieces handed out by consecutive
    /// calls of `allocate`, the second is in another chunk or starts where
    /// the first one ends.
    pub proof fn lemma_consecutive_pieces_disjoint<P: Fn(&F) -> bool>(
        s0: Self,
        s1: Self,
        s2: Self,
        size1: u64,
        size2: u64,
        is_complete: &P,
        r1: BufferPiece,
        r2: BufferPiece,
    )
        requires
            s1.wf(),
            Self::allocate_post(&s0, &s1, size1, is_complete, r1),
            Self::allocate_post(&s1, &s2, size2, is_complete, r2),
        ensures
            r1.chunk != r2.chunk || r1.offset + size1 == r2.offset,
    {
        Self::lemma_piece_in_chunk(s0, s1, size1, is_complete, r1);
        let i = choose|i: int|
            0 <= i < s1.active().len() && #[trigger] s1.active()[i].0.chunk == r1.chunk && r1.offset + size1
                == s1.active()[i].1;
        if exists|k: int| 0 <= k < s1.active().len() && fits_active(#[trigger] s1.active()[k], size2) {
            let k = choose|k: int|
                #![trigger s1.active()[k]]
                first_fit(s1.active(), size2, k) && r2 == BufferPiece {
                    chunk: s1.active()[k].0.chunk,
                    offset: s1.active()[k].1,
                } && s2.active() == s1.active().update(k, (s1.active()[k].0, (s1.active()[k].1 + size2) as u64));
            if k != i {
                assert(s1.active()[k].0.chunk != s1.active()[i].0.chunk);
            }
        } else if s2.chunks_made() == s1.chunks_made() + 1 {
            assert(s1.active()[i].0.chunk < s1.chunks_made());
        } else {
            let j = choose|j: int|
                #![trigger s1.retired()[j]]
                0 <= j < s1.retired().len() && size2 <= s1.retired()[j].0.size && is_complete.ensures(
                    (&s1.retired()[j].1,),
                    true,
                ) && s2.active().last().0 == s1.retired()[j].0;
            assert(s1.active()[i].0.chunk != s1.retired()[j].0.chunk);
        }
    }

    /// Hands out `size` bytes of staging space. Never fails: when no chunk
    /// can take them, a new one is made.
    pub fn allocate<P: Fn(&F) -> bool>(&mut self, size: u64, is_complete: &P) -> (r: BufferPiece)
        requires
            old(self).wf(),
            old(self).chunks_made() < usize::MAX,
            forall|f: &F| is_complete.requires((f,)),
        ensures
            final(self).wf(),
            Self::allocate_post(old(self), final(self), size, is_complete, r),
    {
        let mut i: usize = 0;
        while i < self.active.len()
            invariant
                *self == *old(self),
                self.wf(),
                0 <= i <= self.active@.len(),
                forall|k: int| 0 <= k < i ==> !fits_active(#[trigger] self.active@[k], size),
            decreases self.active@.len() - i,
        {
            let entry = self.active[i];
            assert(entry.1 <= entry.0.size);
            if size <= entry.0.size - entry.1 {
                let piece = BufferPiece { chunk: entry.0.chunk, offset: entry.1 };
                proof {
                    lemma_wf_bump(self.active@, self.buffers@, self.chunk_count as nat, i as int, (entry.1 + size) as u64);
                }
                self.active.set(i, (entry.0, entry.1 + size));
                assert(first_fit(old(self).active(), size, i as int));
                return piece;
            }
            i += 1;
        }
        assert(forall|k: int|
            0 <= k < old(self).active().len() ==> !fits_active(#[trigger] old(self).active()[k], size));
        let mut j: usize = 0;
        while j < self.buffers.len()
            invariant
                *self == *old(self),
                self.wf(),
                forall|k: int| 0 <= k < self.active@.len() ==> !fits_active(#[trigger] self.active@[k], size),
                forall|f: &F| is_complete.requires((f,)),
                0 <= j <= self.buffers@.len(),
                forall|k: int|
                    0 <= k < j && size <= #[trigger] self.buffers@[k].0.size ==> is_complete.ensures(
                        (&self.buffers@[k].1,),
                        false,
                    ),
            decreases self.buffers@.len() - j,
        {
            if size <= self.buffers[j].0.size {
                let passed = is_complete(&self.buffers[j].1);
                if passed {
                    proof {
                        lemma_wf_reuse(self.active@, self.buffers@, self.chunk_count as nat, j as int, size);
                    }
                    let (rb, _fence) = self.buffers.remove(j);
                    self.active.push((rb, size));
                    assert(self.active@.drop_last() =~= old(self).active@);
                    assert(0 <= j < old(self).retired().len() && size <= old(self).retired()[j as int].0.size
                        && is_complete.ensures((&old(self).retired()[j as int].1,), true));
                    return BufferPiece { chunk: rb.chunk, offset: 0 };
                }
            }
            j += 1;
        }
        let chunk = self.chunk_count;
        let chunk_size = if size >= self.desc.min_chunk_size {
            size
        } else {
            self.desc.min_chunk_size
        };
        let rb = ReusableBuffer { chunk, size: chunk_size };
        proof {
            lemma_wf_fresh(self.active@, self.buffers@, self.chunk_count as nat, rb, size);
        }
        self.active.push((rb, size));
        self.chunk_count = chunk + 1;
        assert(self.active@.drop_last() =~= old(self).active@);
        BufferPiece { chunk, offset: 0 }
    }
}

} // verus!
