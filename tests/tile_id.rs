use std::collections::hash_map::DefaultHasher;
use std::hash::{Hash, Hasher};
use tiny_maps::tile_id::TileId;

fn hash_of(id: &TileId) -> u64 {
    let mut h = DefaultHasher::new();
    id.hash(&mut h);
    h.finish()
}

#[test]
fn ids_from_fractions_that_truncate_alike_are_equal() {
    let a = TileId::new(18654.2_f32 as i64, 9481.9_f32 as i64, 15.0_f32 as i64);
    let b = TileId::new(18654.7_f32 as i64, 9481.1_f32 as i64, 15.3_f32 as i64);
    assert_eq!(a, b);
    assert_eq!(hash_of(&a), hash_of(&b));
    assert_eq!((a.x(), a.y(), a.z()), (18654, 9481, 15));
}

#[test]
fn ids_that_differ_are_not_equal() {
    let a = TileId::new(1, 2, 3);
    assert_ne!(a, TileId::new(2, 2, 3));
    assert_ne!(a, TileId::new(1, 3, 3));
    assert_ne!(a, TileId::new(1, 2, 4));
}

#[test]
fn components_are_truncated_into_u32() {
    let id = TileId::new(-3, 5_000_000_000, 7);
    assert_eq!((id.x(), id.y(), id.z()), (0, u32::MAX, 7));
    assert_eq!(TileId::new(-1, 0, 0), TileId::new(0, 0, 0));
    assert_eq!(hash_of(&TileId::new(-1, 0, 0)), hash_of(&TileId::new(0, 0, 0)));
}

#[test]
fn keys_tell_tiles_apart() {
    assert_eq!(TileId::new(1, 2, 3).key(), (3u128 << 64) | (1u128 << 32) | 2);
    assert_ne!(TileId::new(1, 0, 0).key(), TileId::new(0, 1, 0).key());
    assert_ne!(TileId::new(0, 0, 1).key(), TileId::new(0, 0, 0).key());
}
