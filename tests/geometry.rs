use blade_atlas::{AtlasKey, AtlasTextureKind, DevicePixels, Size, TextureFormat};

#[test]
fn row_bytes_are_width_times_pixel_size() {
    assert_eq!(DevicePixels(10).to_bytes(4), 40);
    assert_eq!(DevicePixels(0).to_bytes(2), 0);
    assert_eq!(DevicePixels(16384).to_bytes(4), 65536);
}

#[test]
fn size_max_is_side_wise() {
    let a = Size { width: DevicePixels(2048), height: DevicePixels(10) };
    let b = Size { width: DevicePixels(1024), height: DevicePixels(1024) };
    assert_eq!(a.max(&b), Size { width: DevicePixels(2048), height: DevicePixels(1024) });
    assert_eq!(b.max(&a), Size { width: DevicePixels(2048), height: DevicePixels(1024) });
}

#[test]
fn kinds_map_to_formats() {
    assert_eq!(AtlasTextureKind::Monochrome.format(), TextureFormat::R8Unorm);
    assert_eq!(AtlasTextureKind::Polychrome.format(), TextureFormat::Bgra8Unorm);
    assert_eq!(AtlasTextureKind::Path.format(), TextureFormat::R16Float);
    assert_eq!(TextureFormat::R8Unorm.bytes_per_pixel(), 1);
    assert_eq!(TextureFormat::Bgra8Unorm.bytes_per_pixel(), 4);
    assert_eq!(TextureFormat::R16Float.bytes_per_pixel(), 2);
    assert!(AtlasTextureKind::Path.usage().target);
    assert!(!AtlasTextureKind::Monochrome.usage().target);
}

#[test]
fn key_names_its_pool() {
    let k = AtlasKey { kind: AtlasTextureKind::Polychrome, id: 3 };
    assert_eq!(k.texture_kind(), AtlasTextureKind::Polychrome);
}
