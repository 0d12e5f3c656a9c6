use contree::cache_types::{BoxTreeGPUDataHandler, BrickOwnedBy, VictimPointer, ABSENT, SOLID_TAG};
use contree::spatial::V3c;
use contree::tree::Contree;
use contree::types::{Albedo, ChunkData, ContreeEntry, VoxelChildren, VoxelContent};

fn red() -> Albedo {
    Albedo { r: 255, g: 0, b: 0, a: 255 }
}

fn blue() -> Albedo {
    Albedo { r: 0, g: 0, b: 255, a: 255 }
}

/// A tree of three levels with a voxel in each of the first `count` children of the root.
fn tree_with_children(count: u32) -> Contree<u32> {
    let mut tree = Contree::<u32>::new(64, 1).ok().unwrap();
    tree.auto_simplify = false;
    for i in 0..count {
        let x = (i % 4) * 16;
        let y = ((i / 4) % 4) * 16;
        let z = (i / 16) * 16;
        tree.insert(&V3c::new(x, y, z), &ContreeEntry::Visual(&red())).ok().unwrap();
    }
    tree
}

fn child_keys(tree: &Contree<u32>, key: usize) -> Vec<usize> {
    match tree.node_children[key] {
        VoxelChildren::Children(c) => c
            .iter()
            .filter(|k| tree.nodes.key_is_valid(**k as usize))
            .map(|k| *k as usize)
            .collect(),
        _ => vec![],
    }
}

#[test]
fn victim_pointer_steps_through_children_and_nodes() {
    let mut pointer = VictimPointer::new(3);
    assert_eq!(pointer.len(), 3);
    assert!(!pointer.is_full());
    assert_eq!(pointer.get_loop_count(), 0);
    assert_eq!((pointer.meta_index, pointer.child), (1, 0));
    pointer.step();
    assert_eq!((pointer.meta_index, pointer.child), (1, 1));
    pointer.skip_node();
    assert_eq!((pointer.meta_index, pointer.child), (0, 0));
    for _ in 0..63 {
        pointer.step();
    }
    assert_eq!((pointer.meta_index, pointer.child), (0, 63));
    pointer.step();
    assert_eq!((pointer.meta_index, pointer.child), (2, 0));
    assert_eq!(pointer.get_loop_count(), 1);
}

#[test]
fn free_slots_are_given_out_before_anything_is_evicted() {
    let tree = tree_with_children(5);
    let mut cache = BoxTreeGPUDataHandler::new(8, 4);
    let (root_slot, _) = cache.add_node(&tree, 0).unwrap();
    assert_eq!(root_slot, 0);
    let children = child_keys(&tree, 0);
    assert_eq!(children.len(), 5);
    for (i, child) in children.iter().enumerate() {
        let (slot, package) = cache.add_node(&tree, *child).unwrap();
        assert_eq!(slot, i + 1);
        assert!(package.brick_updates.is_empty());
        assert_eq!(package.modified_nodes, vec![slot]);
        assert_eq!(package.modified_usage_range, (slot, slot + 1));
        assert_eq!(cache.node_key_vs_meta_index.get_by_left(*child as u64), Some(slot));
        assert_eq!(cache.node_key_vs_meta_index.get_by_right(slot), Some(*child as u64));
    }
    assert!(!cache.victim_node.is_full());
}

#[test]
fn eviction_spares_the_root_and_keeps_the_pairs_one_to_one() {
    let tree = tree_with_children(12);
    let mut cache = BoxTreeGPUDataHandler::new(4, 4);
    cache.add_node(&tree, 0).unwrap();
    let children = child_keys(&tree, 0);
    // the root is mirrored again whenever a child was added, as the consumer would ask
    for child in children.iter() {
        let (slot, _) = cache.add_node(&tree, *child).unwrap();
        assert!(slot != 0);
        assert!(slot < 4);
        let (root_slot, _) = cache.add_node(&tree, 0).unwrap();
        assert_eq!(root_slot, 0);
        // every slot has at most one key, and every key at most one slot
        let mut seen = std::collections::HashSet::new();
        for s in 0..4usize {
            if let Some(key) = cache.node_key_vs_meta_index.get_by_right(s) {
                assert!(seen.insert(key));
                assert_eq!(cache.node_key_vs_meta_index.get_by_left(key), Some(s));
            }
        }
        assert_eq!(cache.node_key_vs_meta_index.get_by_right(0), Some(0));
        assert_eq!(cache.node_key_vs_meta_index.get_by_left(*child as u64), Some(slot));
    }
    assert!(cache.victim_node.is_full());
}

#[test]
fn a_full_cache_without_children_in_it_provides_no_slot() {
    let tree = tree_with_children(3);
    let mut cache = BoxTreeGPUDataHandler::new(2, 1);
    cache.add_node(&tree, 0).unwrap();
    let children = child_keys(&tree, 0);
    cache.add_node(&tree, children[0]).unwrap();
    // the root was mirrored before its child was, so no descriptor names a node slot
    assert!(cache.add_node(&tree, children[1]).is_none());
    // once the root names the child, the slot of the child can be given out
    cache.add_node(&tree, 0).unwrap();
    let (slot, package) = cache.add_node(&tree, children[1]).unwrap();
    assert_eq!(slot, 1);
    assert_eq!(package.modified_nodes, vec![0, 1]);
}

#[test]
fn the_slot_of_a_node_mirrors_its_kind_and_children() {
    let mut tree = Contree::<u32>::new(16, 1).ok().unwrap();
    tree.auto_simplify = false;
    tree.insert(&V3c::new(0, 0, 0), &ContreeEntry::Visual(&red())).ok().unwrap();
    tree.insert(&V3c::new(1, 0, 0), &ContreeEntry::Visual(&blue())).ok().unwrap();
    let child = child_keys(&tree, 0)[0];
    let mut cache = BoxTreeGPUDataHandler::new(4, 4);
    let (slot, _) = cache.add_node(&tree, child).unwrap();
    assert_eq!(slot, 1);
    // the child is a leaf that is not uniform
    assert!(matches!(tree.nodes.get(child), VoxelContent::Leaf(_)));
    assert_eq!(cache.render_data.node_metadata[0] & (1 << 1), 1 << 1);
    assert_eq!(cache.render_data.node_metadata[0] & (1 << 9), 0);
    // its bricks are matrices of one voxel, none of them in the cache
    for sectant in 0..64 {
        assert_eq!(cache.render_data.node_children[64 + sectant], ABSENT);
    }
    assert_eq!(cache.render_data.node_ocbits[2], 0b11);
    assert_eq!(cache.render_data.node_ocbits[3], 0);
    // the root is divided, and names the slot of its child
    let (root_slot, _) = cache.add_node(&tree, 0).unwrap();
    assert_eq!(root_slot, 0);
    assert_eq!(cache.render_data.node_metadata[0] & 1, 0);
    assert_eq!(cache.render_data.node_children[0], 1);
    for sectant in 1..64 {
        assert_eq!(cache.render_data.node_children[sectant], ABSENT);
    }
    assert_eq!(cache.render_data.node_ocbits[0], 1);
}

#[test]
fn solid_bricks_are_held_in_their_descriptors() {
    let mut tree = Contree::<u32>::new(16, 1).ok().unwrap();
    tree.insert(&V3c::new(0, 0, 0), &ContreeEntry::Visual(&red())).ok().unwrap();
    tree.insert(&V3c::new(3, 3, 3), &ContreeEntry::Visual(&blue())).ok().unwrap();
    let child = child_keys(&tree, 0)[0];
    let mut cache = BoxTreeGPUDataHandler::new(4, 4);
    let (slot, _) = cache.add_node(&tree, child).unwrap();
    let red_value = cache.render_data.node_children[slot * 64];
    assert_eq!(red_value & SOLID_TAG, SOLID_TAG);
    assert_eq!(red_value & 0xFFFF, 0);
    let blue_value = cache.render_data.node_children[slot * 64 + 63];
    assert_eq!(blue_value & 0xFFFF, 1);
    assert_eq!(cache.render_data.node_children[slot * 64 + 1], ABSENT);
    // a solid brick takes no slot
    let before = cache.victim_brick;
    assert!(cache.add_brick(&tree, child, 0).is_none());
    assert_eq!(cache.victim_brick, before);
    assert_eq!(cache.brick_ownership.get_by_right(0), None);
    // nor does the brick of a node that is no leaf
    assert!(cache.add_brick(&tree, 0, 0).is_none());
    // an empty brick has the absent descriptor
    let (descriptor, package) = cache.add_brick(&tree, child, 1).unwrap();
    assert_eq!(descriptor, ABSENT as usize);
    assert!(package.brick_updates.is_empty());
}

#[test]
fn bricks_take_slots_by_second_chance() {
    let mut tree = Contree::<u32>::new(32, 2).ok().unwrap();
    tree.auto_simplify = false;
    // three bricks that are matrices, in one leaf
    tree.insert(&V3c::new(0, 0, 0), &ContreeEntry::Visual(&red())).ok().unwrap();
    tree.insert(&V3c::new(2, 0, 0), &ContreeEntry::Visual(&red())).ok().unwrap();
    tree.insert(&V3c::new(4, 0, 0), &ContreeEntry::Visual(&red())).ok().unwrap();
    let leaf = child_keys(&tree, 0)[0];
    let mut cache = BoxTreeGPUDataHandler::new(1, 1);
    let bricks = 31;
    let (first, package) = cache.add_brick(&tree, leaf, 0).unwrap();
    assert_eq!(first, 0);
    assert_eq!(package.brick_updates.len(), 1);
    assert_eq!(package.brick_updates[0].brick_index, 0);
    let expected = match tree.nodes.get(leaf) {
        VoxelContent::Leaf(b) => match &b[0] {
            ChunkData::Parted(values) => values.clone(),
            _ => panic!("the brick is a matrix"),
        },
        _ => panic!("the node is a leaf"),
    };
    assert_eq!(package.brick_updates[0].data, Some(&expected));
    assert_eq!(cache.owner_of_brick(0), BrickOwnedBy::NodeAsChild(leaf as u32, 0));
    // the brick in the first slot is used, so the second brick gets the next slot
    let (second, _) = cache.add_brick(&tree, leaf, 1).unwrap();
    assert_eq!(second, 1);
    // all slots but the first two are free; fill them
    for _ in 2..bricks {
        cache.add_brick(&tree, leaf, 2).unwrap();
    }
    // the owner of a brick is unique: the third brick moved from slot to slot
    let mut owned = 0;
    for b in 0..bricks {
        if cache.owner_of_brick(b) == BrickOwnedBy::NodeAsChild(leaf as u32, 2) {
            owned += 1;
        }
    }
    assert_eq!(owned, 1);
    assert_eq!(cache.owner_of_brick(0), BrickOwnedBy::NodeAsChild(leaf as u32, 0));
    assert_eq!(cache.owner_of_brick(1), BrickOwnedBy::NodeAsChild(leaf as u32, 1));
}

#[test]
fn pairs_of_keys_and_slots_stay_one_to_one() {
    let mut map = contree::slot_map::SlotMap::new(4);
    assert_eq!(map.get_by_left(7), None);
    assert_eq!(map.get_by_right(0), None);
    assert!(!map.contains_left(7));
    assert!(!map.contains_right(0));
    map.insert(7, 2);
    map.insert(9, 3);
    assert_eq!(map.get_by_left(7), Some(2));
    assert_eq!(map.get_by_right(2), Some(7));
    assert!(map.contains_left(9));
    assert!(map.contains_right(3));
    assert!(!map.contains_right(9));
    // a key that moves leaves its slot; a slot that is taken over leaves its key
    map.insert(7, 3);
    assert_eq!(map.get_by_left(7), Some(3));
    assert_eq!(map.get_by_right(3), Some(7));
    assert_eq!(map.get_by_right(2), None);
    assert_eq!(map.get_by_left(9), None);
    assert!(!map.contains_left(9));
    map.remove_by_right(3);
    assert_eq!(map.get_by_left(7), None);
    assert_eq!(map.get_by_right(3), None);
    map.remove_by_right(3);
    map.remove_by_right(17);
    assert!(!map.contains_left(7));
}

#[test]
fn a_later_request_for_a_resolution_takes_the_place_of_an_earlier_one() {
    let current = (640, 480);
    assert_eq!(contree::view::request_resolution(current, None, (640, 480)), None);
    assert_eq!(contree::view::request_resolution(current, None, (800, 600)), Some((800, 600)));
    assert_eq!(
        contree::view::request_resolution(current, Some((800, 600)), (1024, 768)),
        Some((1024, 768))
    );
    assert_eq!(
        contree::view::request_resolution(current, Some((800, 600)), (640, 480)),
        Some((800, 600))
    );
    assert_eq!(contree::view::request_resolution(current, None, (640, 481)), Some((640, 481)));
}
