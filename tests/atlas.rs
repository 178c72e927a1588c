use blade_atlas::{
    AtlasKey, AtlasTextureId, AtlasTextureKind, AtlasTile, BladeAtlas, Bounds, BufferPiece,
    DevicePixels, Extent, Point, Size, TextureFormat, TextureUsage, DEFAULT_ATLAS_SIDE,
};

fn size(width: i32, height: i32) -> Size {
    Size { width: DevicePixels(width), height: DevicePixels(height) }
}

fn key(kind: AtlasTextureKind, id: u64) -> AtlasKey {
    AtlasKey { kind, id }
}

fn never(_: &u64) -> bool {
    false
}

fn overlap(a: &Bounds, b: &Bounds) -> bool {
    a.origin.x.0 < b.origin.x.0 + b.size.width.0
        && b.origin.x.0 < a.origin.x.0 + a.size.width.0
        && a.origin.y.0 < b.origin.y.0 + b.size.height.0
        && b.origin.y.0 < a.origin.y.0 + a.size.height.0
}

fn inside(atlas: &BladeAtlas<u64>, tile: &AtlasTile) -> bool {
    let info = atlas.get_texture_info(tile.texture_id);
    let b = tile.bounds;
    b.origin.x.0 >= 0
        && b.origin.y.0 >= 0
        && (b.origin.x.0 + b.size.width.0) as u32 <= info.size.width
        && (b.origin.y.0 + b.size.height.0) as u32 <= info.size.height
}

fn assert_pairwise_disjoint(tiles: &[AtlasTile]) {
    for (i, a) in tiles.iter().enumerate() {
        for b in &tiles[i + 1..] {
            if a.texture_id == b.texture_id {
                assert_ne!(a.tile_id, b.tile_id);
                assert!(!overlap(&a.bounds, &b.bounds), "{:?} overlaps {:?}", a, b);
            }
        }
    }
}

fn glyph(atlas: &mut BladeAtlas<u64>, id: u64, w: i32, h: i32) -> AtlasTile {
    let bytes = vec![id as u8; (w * h) as usize];
    atlas
        .get_or_insert_with(
            &key(AtlasTextureKind::Monochrome, id),
            move || Ok::<_, String>((size(w, h), bytes)),
            &never,
        )
        .unwrap()
}

#[test]
fn fifty_monochrome_tiles_in_small_textures() {
    let mut atlas: BladeAtlas<u64> = BladeAtlas::with_default_size(size(128, 128));
    let mut tiles = Vec::new();
    for id in 0..50 {
        tiles.push(glyph(&mut atlas, id, 16, 16));
    }
    assert_eq!(tiles.len(), 50);
    assert!(atlas.texture_count_of(AtlasTextureKind::Monochrome) >= 1);
    for tile in &tiles {
        assert!(inside(&atlas, tile));
        assert_eq!(tile.bounds.size, size(16, 16));
        assert_eq!(tile.texture_id.kind, AtlasTextureKind::Monochrome);
    }
    assert_pairwise_disjoint(&tiles);
    // One 128 x 128 texture has room for 64 such tiles; past that, the
    // first texture is full and another one is made.
    for id in 50..65 {
        tiles.push(glyph(&mut atlas, id, 16, 16));
    }
    assert!(atlas.texture_count_of(AtlasTextureKind::Monochrome) >= 2);
    for tile in &tiles {
        assert!(inside(&atlas, tile));
    }
    assert_pairwise_disjoint(&tiles);
}

#[test]
fn oversized_tile_gets_its_own_texture_at_origin() {
    let mut atlas: BladeAtlas<u64> = BladeAtlas::new();
    let tile = atlas.allocate(size(2048, 2048), AtlasTextureKind::Monochrome);
    let info = atlas.get_texture_info(tile.texture_id);
    assert!(info.size.width >= 2048 && info.size.height >= 2048);
    assert_eq!(tile.bounds.origin, Point { x: DevicePixels(0), y: DevicePixels(0) });
    assert_eq!(tile.bounds.size, size(2048, 2048));
    assert_eq!(tile.padding, 0);
}

#[test]
fn texture_is_sized_to_the_larger_of_tile_and_default() {
    let mut atlas: BladeAtlas<u64> = BladeAtlas::new();
    let tile = atlas.allocate(size(1500, 300), AtlasTextureKind::Polychrome);
    let info = atlas.get_texture_info(tile.texture_id);
    assert_eq!(info.size, Extent { width: 1500, height: DEFAULT_ATLAS_SIDE as u32, depth: 1 });
    let small = atlas.allocate(size(10, 10), AtlasTextureKind::Path);
    let info = atlas.get_texture_info(small.texture_id);
    assert_eq!(info.size, Extent { width: 1024, height: 1024, depth: 1 });
}

#[test]
fn get_or_insert_builds_once_per_key() {
    let mut atlas: BladeAtlas<u64> = BladeAtlas::new();
    let k = key(AtlasTextureKind::Polychrome, 42);
    let mut calls = 0;
    let first = atlas
        .get_or_insert_with(
            &k,
            || {
                calls += 1;
                Ok::<_, String>((size(8, 4), vec![1u8; 8 * 4 * 4]))
            },
            &never,
        )
        .unwrap();
    for _ in 0..3 {
        let again = atlas
            .get_or_insert_with(
                &k,
                || {
                    calls += 1;
                    Ok::<_, String>((size(30, 30), vec![2u8; 30 * 30 * 4]))
                },
                &never,
            )
            .unwrap();
        assert_eq!(again, first);
    }
    assert_eq!(calls, 1);
    assert_eq!(first.bounds.size, size(8, 4));
    // Only the first call queued an upload.
    assert_eq!(atlas.before_frame().len(), 1);
}

#[test]
fn same_id_of_another_kind_is_another_key() {
    let mut atlas: BladeAtlas<u64> = BladeAtlas::new();
    let mono = glyph(&mut atlas, 5, 4, 4);
    let poly = atlas
        .get_or_insert_with(
            &key(AtlasTextureKind::Polychrome, 5),
            || Ok::<_, String>((size(4, 4), vec![0u8; 64])),
            &never,
        )
        .unwrap();
    assert_eq!(mono.texture_id.kind, AtlasTextureKind::Monochrome);
    assert_eq!(poly.texture_id.kind, AtlasTextureKind::Polychrome);
}

#[test]
fn builder_error_leaves_no_state_behind() {
    let mut atlas: BladeAtlas<u64> = BladeAtlas::new();
    let k = key(AtlasTextureKind::Monochrome, 1);
    let r = atlas.get_or_insert_with(&k, || Err::<(Size, Vec<u8>), _>("degenerate glyph"), &never);
    assert_eq!(r, Err("degenerate glyph"));
    assert_eq!(atlas.texture_count_of(AtlasTextureKind::Monochrome), 0);
    assert!(atlas.before_frame().is_empty());
    // Nothing was cached: the next call builds.
    let mut built = false;
    let tile = atlas
        .get_or_insert_with(
            &k,
            || {
                built = true;
                Ok::<_, &str>((size(3, 3), vec![7u8; 9]))
            },
            &never,
        )
        .unwrap();
    assert!(built);
    assert_eq!(tile.bounds.size, size(3, 3));
}

#[test]
fn allocated_tiles_never_overlap() {
    let mut atlas: BladeAtlas<u64> = BladeAtlas::new();
    let sizes = [(10, 10), (300, 20), (17, 45), (64, 64), (1, 1), (200, 200), (33, 7), (512, 100), (5, 900)];
    let mut tiles = Vec::new();
    for round in 0..4 {
        for &(w, h) in &sizes {
            tiles.push(atlas.allocate(size(w + round, h), AtlasTextureKind::Monochrome));
        }
    }
    for tile in &tiles {
        assert!(inside(&atlas, tile));
    }
    assert_pairwise_disjoint(&tiles);
}

#[test]
fn allocate_prefers_the_newest_texture() {
    let mut atlas: BladeAtlas<u64> = BladeAtlas::with_default_size(size(64, 64));
    let big = atlas.allocate(size(64, 64), AtlasTextureKind::Monochrome);
    assert_eq!(big.texture_id, AtlasTextureId { index: 0, kind: AtlasTextureKind::Monochrome });
    let next = atlas.allocate(size(8, 8), AtlasTextureKind::Monochrome);
    assert_eq!(next.texture_id.index, 1);
    let third = atlas.allocate(size(8, 8), AtlasTextureKind::Monochrome);
    assert_eq!(third.texture_id.index, 1);
    assert_eq!(atlas.texture_count_of(AtlasTextureKind::Monochrome), 2);
}

#[test]
fn clear_textures_then_reallocate_makes_no_texture() {
    let mut atlas: BladeAtlas<u64> = BladeAtlas::with_default_size(size(64, 64));
    let sizes = [(64, 64), (30, 30), (30, 30), (16, 40), (64, 64), (8, 8)];
    for &(w, h) in &sizes {
        atlas.allocate(size(w, h), AtlasTextureKind::Polychrome);
    }
    let count = atlas.texture_count_of(AtlasTextureKind::Polychrome);
    assert!(count >= 2);
    atlas.clear_textures(AtlasTextureKind::Polychrome);
    assert_eq!(atlas.texture_count_of(AtlasTextureKind::Polychrome), count);
    let mut tiles = Vec::new();
    for &(w, h) in &sizes {
        tiles.push(atlas.allocate(size(w, h), AtlasTextureKind::Polychrome));
    }
    assert_eq!(atlas.texture_count_of(AtlasTextureKind::Polychrome), count);
    assert_pairwise_disjoint(&tiles);
}

#[test]
fn clear_textures_leaves_other_kinds() {
    let mut atlas: BladeAtlas<u64> = BladeAtlas::with_default_size(size(32, 32));
    let mono = atlas.allocate(size(32, 32), AtlasTextureKind::Monochrome);
    atlas.clear_textures(AtlasTextureKind::Path);
    let next = atlas.allocate(size(32, 32), AtlasTextureKind::Monochrome);
    assert_eq!(mono.texture_id.index, 0);
    assert_eq!(next.texture_id.index, 1);
    atlas.clear_textures(AtlasTextureKind::Monochrome);
    let again = atlas.allocate(size(32, 32), AtlasTextureKind::Monochrome);
    assert_eq!(again.texture_id.index, 1);
    assert_eq!(again.bounds.origin, Point { x: DevicePixels(0), y: DevicePixels(0) });
}

#[test]
fn before_frame_hands_out_copies_in_order() {
    let mut atlas: BladeAtlas<u64> = BladeAtlas::new();
    let a = atlas
        .get_or_insert_with(
            &key(AtlasTextureKind::Polychrome, 1),
            || Ok::<_, ()>((size(10, 5), vec![3u8; 200])),
            &never,
        )
        .unwrap();
    let b = atlas
        .get_or_insert_with(
            &key(AtlasTextureKind::Monochrome, 2),
            || Ok::<_, ()>((size(7, 3), vec![4u8; 21])),
            &never,
        )
        .unwrap();
    let copies = atlas.before_frame();
    assert_eq!(copies.len(), 2);
    assert_eq!(copies[0].texture, a.texture_id);
    assert_eq!(copies[0].bytes_per_row, 40);
    assert_eq!(copies[0].bytes, vec![3u8; 200]);
    assert_eq!(copies[0].size, Extent { width: 10, height: 5, depth: 1 });
    assert_eq!(copies[0].origin_x, a.bounds.origin.x.0 as u32);
    assert_eq!(copies[0].origin_y, a.bounds.origin.y.0 as u32);
    assert_eq!(copies[0].data, BufferPiece { chunk: 0, offset: 0 });
    assert_eq!(copies[1].texture, b.texture_id);
    assert_eq!(copies[1].bytes_per_row, 7);
    assert_eq!(copies[1].data, BufferPiece { chunk: 0, offset: 200 });
    assert!(atlas.before_frame().is_empty());
}

#[test]
fn path_uploads_use_two_bytes_per_pixel() {
    let mut atlas: BladeAtlas<u64> = BladeAtlas::new();
    atlas
        .get_or_insert_with(
            &key(AtlasTextureKind::Path, 9),
            || Ok::<_, ()>((size(6, 2), vec![0u8; 24])),
            &never,
        )
        .unwrap();
    let copies = atlas.before_frame();
    assert_eq!(copies[0].bytes_per_row, 12);
}

#[test]
fn staging_is_reused_after_the_frame_completes() {
    let mut atlas: BladeAtlas<u64> = BladeAtlas::new();
    let upload = |atlas: &mut BladeAtlas<u64>, id: u64, completed: u64| {
        atlas
            .get_or_insert_with(
                &key(AtlasTextureKind::Monochrome, id),
                || Ok::<_, ()>((size(4, 4), vec![1u8; 16])),
                &|f: &u64| *f <= completed,
            )
            .unwrap();
        atlas.before_frame()[0].data
    };
    assert_eq!(upload(&mut atlas, 1, 0), BufferPiece { chunk: 0, offset: 0 });
    atlas.after_frame(&1);
    // Frame 1 still runs: the staging chunk it reads is not touched.
    assert_eq!(upload(&mut atlas, 2, 0), BufferPiece { chunk: 1, offset: 0 });
    atlas.after_frame(&2);
    assert_eq!(upload(&mut atlas, 3, 1), BufferPiece { chunk: 0, offset: 0 });
}

#[test]
fn texture_info_follows_the_kind_policy() {
    let mut atlas: BladeAtlas<u64> = BladeAtlas::new();
    let m = atlas.allocate(size(4, 4), AtlasTextureKind::Monochrome);
    let p = atlas.allocate(size(4, 4), AtlasTextureKind::Polychrome);
    let q = atlas.allocate(size(4, 4), AtlasTextureKind::Path);
    let mi = atlas.get_texture_info(m.texture_id);
    let pi = atlas.get_texture_info(p.texture_id);
    let qi = atlas.get_texture_info(q.texture_id);
    assert_eq!(mi.format, TextureFormat::R8Unorm);
    assert_eq!(pi.format, TextureFormat::Bgra8Unorm);
    assert_eq!(qi.format, TextureFormat::R16Float);
    assert_eq!(mi.usage, TextureUsage { copy: true, resource: true, target: false });
    assert_eq!(pi.usage, TextureUsage { copy: true, resource: true, target: false });
    assert_eq!(qi.usage, TextureUsage { copy: true, resource: true, target: true });
}

#[test]
fn destroy_lists_every_texture_and_chunk() {
    let mut atlas: BladeAtlas<u64> = BladeAtlas::with_default_size(size(16, 16));
    atlas.allocate(size(16, 16), AtlasTextureKind::Path);
    atlas.allocate(size(16, 16), AtlasTextureKind::Path);
    glyph(&mut atlas, 1, 2, 2);
    let teardown = atlas.destroy();
    assert_eq!(
        teardown.textures,
        vec![
            AtlasTextureId { index: 0, kind: AtlasTextureKind::Monochrome },
            AtlasTextureId { index: 0, kind: AtlasTextureKind::Path },
            AtlasTextureId { index: 1, kind: AtlasTextureKind::Path },
        ]
    );
    assert_eq!(teardown.chunks, vec![0]);
    for kind in [AtlasTextureKind::Monochrome, AtlasTextureKind::Polychrome, AtlasTextureKind::Path] {
        assert_eq!(atlas.texture_count_of(kind), 0);
    }
}

#[test]
fn replay_after_clear_can_need_another_texture() {
    // The newest texture is tried first, so after a clear the small tile
    // lands in the large texture that the large tile needed.
    let mut atlas: BladeAtlas<u64> = BladeAtlas::with_default_size(size(64, 64));
    atlas.allocate(size(64, 64), AtlasTextureKind::Monochrome);
    atlas.allocate(size(100, 100), AtlasTextureKind::Monochrome);
    assert_eq!(atlas.texture_count_of(AtlasTextureKind::Monochrome), 2);
    atlas.clear_textures(AtlasTextureKind::Monochrome);
    let small = atlas.allocate(size(64, 64), AtlasTextureKind::Monochrome);
    assert_eq!(small.texture_id.index, 1);
    let large = atlas.allocate(size(100, 100), AtlasTextureKind::Monochrome);
    assert_eq!(large.texture_id.index, 2);
    assert_eq!(atlas.texture_count_of(AtlasTextureKind::Monochrome), 3);
}
