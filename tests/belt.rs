use blade_atlas::{BladeBelt, BladeBeltDescriptor, BufferPiece, Memory};

fn belt(min_chunk_size: u64) -> BladeBelt<u64> {
    BladeBelt::new(BladeBeltDescriptor { memory: Memory::Upload, min_chunk_size })
}

fn piece(chunk: usize, offset: u64) -> BufferPiece {
    BufferPiece { chunk, offset }
}

#[test]
fn belt_bumps_within_an_active_chunk() {
    let mut b = belt(0x10000);
    let never = |_: &u64| false;
    assert_eq!(b.allocate(100, &never), piece(0, 0));
    assert_eq!(b.allocate(50, &never), piece(0, 100));
    assert_eq!(b.allocate(1, &never), piece(0, 150));
    assert_eq!(b.chunk_count(), 1);
    assert_eq!(b.chunk_size(0), Some(0x10000));
}

#[test]
fn belt_makes_a_chunk_when_none_has_room() {
    let mut b = belt(16);
    let never = |_: &u64| false;
    assert_eq!(b.allocate(10, &never), piece(0, 0));
    assert_eq!(b.allocate(10, &never), piece(1, 0));
    assert_eq!(b.allocate(6, &never), piece(0, 10));
    assert_eq!(b.chunk_count(), 2);
    assert_eq!(b.chunk_size(1), Some(16));
    assert_eq!(b.chunk_size(2), None);
}

#[test]
fn belt_chunk_grows_to_a_large_request() {
    let mut b = belt(16);
    let never = |_: &u64| false;
    assert_eq!(b.allocate(1000, &never), piece(0, 0));
    assert_eq!(b.chunk_size(0), Some(1000));
}

#[test]
fn belt_does_not_reuse_before_the_fence_passes() {
    let mut b = belt(16);
    assert_eq!(b.allocate(10, &|_: &u64| false), piece(0, 0));
    b.flush(&1);
    // Frame 1 has not completed: the retired chunk must not be handed out.
    let completed = 0u64;
    assert_eq!(b.allocate(10, &|f: &u64| *f <= completed), piece(1, 0));
    b.flush(&2);
    // Frame 1 has completed, frame 2 has not: chunk 0 comes back, from its start.
    let completed = 1u64;
    assert_eq!(b.allocate(12, &|f: &u64| *f <= completed), piece(0, 0));
    assert_eq!(b.allocate(4, &|f: &u64| *f <= completed), piece(0, 12));
    assert_eq!(b.chunk_count(), 2);
}

#[test]
fn belt_reuses_only_a_chunk_large_enough() {
    let mut b = belt(16);
    let never = |_: &u64| false;
    assert_eq!(b.allocate(16, &never), piece(0, 0));
    assert_eq!(b.allocate(64, &never), piece(1, 0));
    b.flush(&1);
    let always = |_: &u64| true;
    assert_eq!(b.allocate(32, &always), piece(1, 0));
    assert_eq!(b.allocate(8, &always), piece(1, 32));
    // 40 bytes fit neither chunk 1 (32 left) nor chunk 0 (16 bytes).
    assert_eq!(b.allocate(40, &always), piece(2, 0));
}

#[test]
fn belt_flush_retires_every_active_chunk() {
    let mut b = belt(8);
    let never = |_: &u64| false;
    b.allocate(8, &never);
    b.allocate(8, &never);
    b.flush(&7);
    // Both chunks wait for frame 7; a new request makes a new chunk.
    assert_eq!(b.allocate(4, &|f: &u64| *f < 7), piece(2, 0));
    assert_eq!(b.allocate(4, &|f: &u64| *f <= 7), piece(2, 4));
    b.flush(&8);
    assert_eq!(b.allocate(4, &|f: &u64| *f <= 7), piece(0, 0));
}

#[test]
fn belt_alloc_data_aligns_for_the_element_type() {
    let mut b = belt(64);
    let never = |_: &u64| false;
    assert_eq!(b.allocate(1, &never), piece(0, 0));
    // Three u32 need 12 bytes at a multiple of 4: 15 bytes are taken at
    // offset 1 and the data starts at 4.
    assert_eq!(b.alloc_data(&[1u32, 2, 3], &never), piece(0, 4));
    assert_eq!(b.allocate(1, &never), piece(0, 16));
}

#[test]
fn belt_alloc_data_of_bytes_is_unaligned() {
    let mut b = belt(64);
    let never = |_: &u64| false;
    assert_eq!(b.allocate(3, &never), piece(0, 0));
    assert_eq!(b.alloc_data(&[9u8, 9, 9, 9, 9], &never), piece(0, 3));
    assert_eq!(b.allocate(1, &never), piece(0, 8));
}

#[test]
fn belt_destroy_lists_retired_then_active_chunks() {
    let mut b = belt(8);
    let never = |_: &u64| false;
    b.allocate(8, &never);
    b.allocate(8, &never);
    b.flush(&1);
    b.allocate(8, &never);
    assert_eq!(b.destroy(), vec![0, 1, 2]);
    assert_eq!(b.chunk_count(), 0);
    assert_eq!(b.chunk_size(0), None);
}
