use seekslam::octree_key::{
    compute_child_idx, compute_child_key, compute_index_key, OcTreeKey, OcTreeKeyRay,
};
use std::collections::HashSet;

#[test]
fn test_octree_key() {
    let key1 = OcTreeKey::from_xyz(1, 2, 3);
    let key2 = OcTreeKey::from_xyz(1, 2, 3);
    let key3 = OcTreeKey::from_xyz(4, 5, 6);

    assert!(key1.eq(&key2));
    assert!(key1.ne(&key3));
}

#[test]
fn test_compute_child_key() {
    let parent_key = OcTreeKey::from_xyz(10, 10, 10);
    let child_key = compute_child_key(3, 5, &parent_key);

    assert_eq!(child_key.k[0], 15);
    assert_eq!(child_key.k[1], 15);
}

#[test]
fn test_compute_child_idx() {
    let key = OcTreeKey::from_xyz(0b101, 0b110, 0b011);
    let idx = compute_child_idx(&key, 0);
    println!("\nidx: {:b}\n", idx);
}

#[test]
fn test_key_ray() {
    let mut ray = OcTreeKeyRay::new();
    ray.add_key(OcTreeKey::from_xyz(1, 2, 3));
    ray.add_key(OcTreeKey::from_xyz(4, 5, 6));

    assert_eq!(ray.size(), 2);
}

#[test]
fn test_octree_key_eq() {
    let key1 = OcTreeKey { k: [1, 2, 3] };
    let key2 = OcTreeKey { k: [1, 2, 3] };
    let key3 = OcTreeKey { k: [4, 5, 6] };

    assert!(key1 == key2);
    assert!(key1 != key3);
}

#[test]
fn test_octree_key_index() {
    let key = OcTreeKey { k: [1, 2, 3] };
    assert_eq!(key[0], 1);
    assert_eq!(key[1], 2);
    assert_eq!(key[2], 3);
}

#[test]
fn test_octree_key_index_mut() {
    let mut key = OcTreeKey { k: [1, 2, 3] };
    key[0] = 4;
    key[1] = 5;
    key[2] = 6;
    assert_eq!(key.k, [4, 5, 6]);
}

#[test]
fn child_key_lower_half_and_zero_offset() {
    let parent_key = OcTreeKey::from_xyz(10, 10, 10);
    let child_key = compute_child_key(3, 5, &parent_key);
    assert_eq!(child_key.k[2], 5);
    let child_key = compute_child_key(0, 0, &parent_key);
    assert_eq!(child_key.k, [9, 9, 9]);
    let child_key = compute_child_key(7, 0, &parent_key);
    assert_eq!(child_key.k, [10, 10, 10]);
}

#[test]
fn child_idx_reads_bits_at_depth() {
    let key = OcTreeKey::from_xyz(0b101, 0b110, 0b011);
    assert_eq!(compute_child_idx(&key, 0), 5);
    assert_eq!(compute_child_idx(&key, 1), 6);
    assert_eq!(compute_child_idx(&key, 2), 3);
    assert_eq!(compute_child_idx(&key, 15), 0);
}

#[test]
fn child_idx_inverts_child_key_at_root() {
    // The root voxel's center is 32768 on every axis (bit 15 set); its
    // children lie 16384 away.
    let root = OcTreeKey::from_xyz(32768, 32768, 32768);
    for pos in 0u8..8 {
        let child = compute_child_key(pos, 16384, &root);
        assert_eq!(compute_child_idx(&child, 15), pos);
    }
    // Depth bit 0: odd centers, offset 0.
    let leaf_parent = OcTreeKey::from_xyz(7, 9, 11);
    for pos in 0u8..8 {
        let child = compute_child_key(pos, 0, &leaf_parent);
        assert_eq!(compute_child_idx(&child, 0), pos);
    }
}

#[test]
fn index_key_clears_low_bits() {
    let key = OcTreeKey::from_xyz(0xFFFF, 0x1234, 7);
    assert_eq!(compute_index_key(0, &key).k, [0xFFFF, 0x1234, 7]);
    assert_eq!(compute_index_key(4, &key).k, [0xFFF0, 0x1230, 0]);
    assert_eq!(compute_index_key(15, &key).k, [0x8000, 0, 0]);
    let once = compute_index_key(4, &key);
    assert_eq!(compute_index_key(4, &once).k, once.k);
    assert_eq!(compute_child_idx(&once, 4), compute_child_idx(&key, 4));
}

#[test]
fn key_get_and_get_mut() {
    let mut key = OcTreeKey::new();
    assert_eq!(key.k, [0, 0, 0]);
    *key.get_mut(1) = 9;
    assert_eq!(key.get(1), 9);
    assert_eq!(key.get(0), 0);
}

#[test]
fn key_hash_value_and_set() {
    let key = OcTreeKey::from_xyz(1, 2, 3);
    assert_eq!(key.hash_value(), 1 + 1447 * 2 + 345637 * 3);
    let mut set = HashSet::new();
    set.insert(key);
    set.insert(OcTreeKey::from_xyz(1, 2, 3));
    set.insert(OcTreeKey::from_xyz(3, 2, 1));
    assert_eq!(set.len(), 2);
}

#[test]
fn key_ray_reset_and_capacity() {
    let mut ray = OcTreeKeyRay::new();
    assert_eq!(ray.size_max(), 100000);
    assert_eq!(ray.ray.len(), 100000);
    ray.add_key(OcTreeKey::from_xyz(1, 2, 3));
    assert_eq!(ray.ray[0].k, [1, 2, 3]);
    ray.reset();
    assert_eq!(ray.size(), 0);
    assert_eq!(ray.ray[0].k, [1, 2, 3]);
}

#[test]
fn key_index_mut_past_the_end_addresses_z() {
    let mut key = OcTreeKey::from_xyz(1, 2, 3);
    key[5] = 9;
    assert_eq!(key.k, [1, 2, 9]);
}

#[test]
fn key_ray_keeps_its_shape_over_resets_and_adds() {
    let mut ray = OcTreeKeyRay::new();
    for round in 0..3u16 {
        for i in 0..(10 + round) {
            assert!(ray.size() < ray.size_max());
            ray.add_key(OcTreeKey::from_xyz(i, round, 0));
        }
        assert_eq!(ray.size(), (10 + round) as usize);
        assert_eq!(ray.size_max(), 100000);
        assert_eq!(ray.ray.len(), ray.size_max());
        ray.reset();
        assert_eq!(ray.size(), 0);
    }
}
