use rustitude::clip::{clip_from_top_key, TileClip};
use rustitude::mem_cache::MemoryDrawableCache;
use rustitude::qtree::QTreeKey;

#[test]
fn lib_test_clip_key() {
    let key0 = QTreeKey::root();
    let key1 = key0.child_rb().unwrap().child_lb().unwrap();
    println!("{:?}", clip_from_top_key(key0, key1));
}

#[test]
fn mod_test_clip_key() {
    let key0 = QTreeKey::root();
    let key1 = key0.child_rb().unwrap().child_lb().unwrap();
    println!("{:?}", clip_from_top_key(key0, key1));
}

#[test]
fn clip_of_self_is_whole_tile() {
    let k = QTreeKey::new(4, 9, 2).unwrap();
    let clip = clip_from_top_key(k, k);
    assert_eq!(clip, TileClip { dx: 0, dy: 0, scale: 1 });
}

#[test]
fn clip_under_child_is_half_sized() {
    let key0 = QTreeKey::root();
    let key1 = key0.child_rb().unwrap().child_lb().unwrap();
    // depth difference two: a quarter of the tile, at (2/4, 3/4)
    let clip = clip_from_top_key(key0, key1);
    assert_eq!(clip, TileClip { dx: 2, dy: 3, scale: 4 });
    let half = clip_from_top_key(key0, key0.child_rt().unwrap());
    assert_eq!(half, TileClip { dx: 1, dy: 0, scale: 2 });
}

#[test]
fn grandparent_fallback_clips_quarter_tiles() {
    // a cached grandparent two levels up serves each of the four
    // grandchildren of one child with a quarter-sized clip at its offset
    let gp = QTreeKey::new(3, 2, 5).unwrap();
    let child = gp.child_rb().unwrap();
    let mut cache: MemoryDrawableCache<u32> = MemoryDrawableCache::new();
    cache.put(gp, 77, 0);
    let grandchildren = [
        (child.child_lt().unwrap(), 2u32, 2u32),
        (child.child_rt().unwrap(), 3, 2),
        (child.child_lb().unwrap(), 2, 3),
        (child.child_rb().unwrap(), 3, 3),
    ];
    for (gc, dx, dy) in grandchildren {
        let (found, clip) = cache.resolve_fallback(gc, 1).unwrap();
        assert_eq!(found, gp);
        assert_eq!(clip, TileClip { dx, dy, scale: 4 });
        let rel_size = 1.0f32 / clip.scale as f32;
        assert!((rel_size - 0.25).abs() < 1e-9);
        let rel_x = clip.dx as f32 / clip.scale as f32;
        let rel_y = clip.dy as f32 / clip.scale as f32;
        assert!((rel_x - dx as f32 * 0.25).abs() < 1e-9);
        assert!((rel_y - dy as f32 * 0.25).abs() < 1e-9);
    }
}

#[test]
fn resolver_prefers_nearest_ancestor() {
    let gp = QTreeKey::new(3, 2, 5).unwrap();
    let child = gp.child_rb().unwrap();
    let gc = child.child_lt().unwrap();
    let mut cache: MemoryDrawableCache<u32> = MemoryDrawableCache::new();
    cache.put(gp, 1, 0);
    cache.put(child, 2, 0);
    let (found, clip) = cache.resolve_fallback(gc, 1).unwrap();
    assert_eq!(found, child);
    assert_eq!(clip.scale, 2);
    // with no ancestor cached there is no fallback
    let mut empty: MemoryDrawableCache<u32> = MemoryDrawableCache::new();
    assert!(empty.resolve_fallback(gc, 1).is_none());
}
