use contree::spatial::V3c;
use contree::tree::Contree;
use contree::types::{Albedo, ContreeEntry, ContreeError};

fn red() -> Albedo {
    Albedo { r: 255, g: 0, b: 0, a: 255 }
}

fn green() -> Albedo {
    Albedo { r: 0, g: 255, b: 0, a: 255 }
}

fn blue() -> Albedo {
    Albedo { r: 0, g: 0, b: 255, a: 255 }
}

fn is_visual(entry: &ContreeEntry<u32>, color: &Albedo) -> bool {
    matches!(entry, ContreeEntry::Visual(c) if **c == *color)
}

fn is_empty(entry: &ContreeEntry<u32>) -> bool {
    matches!(entry, ContreeEntry::Empty)
}

#[test]
fn new_rejects_invalid_dimensions() {
    assert!(matches!(
        Contree::<u32>::new(0, 1),
        Err(ContreeError::InvalidBrickDimension(1))
    ));
    assert!(matches!(
        Contree::<u32>::new(16, 3),
        Err(ContreeError::InvalidBrickDimension(3))
    ));
    assert!(matches!(
        Contree::<u32>::new(16, 0),
        Err(ContreeError::InvalidBrickDimension(0))
    ));
    assert!(matches!(
        Contree::<u32>::new(8192, 2048),
        Err(ContreeError::InvalidBrickDimension(2048))
    ));
    assert!(matches!(
        Contree::<u32>::new(8, 1),
        Err(ContreeError::InvalidSize(8))
    ));
    assert!(matches!(
        Contree::<u32>::new(2, 4),
        Err(ContreeError::InvalidSize(2))
    ));
    assert!(matches!(
        Contree::<u32>::new(4, 4),
        Err(ContreeError::InvalidStructure(_))
    ));
    let tree = Contree::<u32>::new(16, 4).ok().unwrap();
    assert_eq!(tree.get_size(), 16);
    assert!(Contree::<u32>::new(128, 8).is_ok());
    assert!(Contree::<u32>::new(4, 1).is_ok());
}

#[test]
fn insert_then_get() {
    let mut tree = Contree::<u32>::new(16, 1).ok().unwrap();
    tree.insert(&V3c::new(1, 0, 0), &ContreeEntry::Visual(&red())).ok().unwrap();
    tree.insert(&V3c::new(0, 1, 0), &ContreeEntry::Visual(&green())).ok().unwrap();
    tree.insert(&V3c::new(0, 0, 1), &ContreeEntry::Visual(&blue())).ok().unwrap();
    assert!(is_visual(&tree.get(&V3c::new(1, 0, 0)), &red()));
    assert!(is_visual(&tree.get(&V3c::new(0, 1, 0)), &green()));
    assert!(is_visual(&tree.get(&V3c::new(0, 0, 1)), &blue()));
    assert!(is_empty(&tree.get(&V3c::new(0, 0, 0))));
    assert!(is_empty(&tree.get(&V3c::new(15, 15, 15))));
    assert!(is_empty(&tree.get(&V3c::new(16, 0, 0))));
}

#[test]
fn insert_everywhere_with_each_brick_dimension() {
    for dim in [1u32, 2, 4] {
        let size = dim * 16;
        let mut tree = Contree::<u32>::new(size, dim).ok().unwrap();
        let colors = [red(), green(), blue()];
        for x in 0..size {
            for y in 0..size {
                for z in 0..size {
                    if (x + 2 * y + 3 * z) % 5 < 2 {
                        let color = colors[((x + y + z) % 3) as usize];
                        tree.insert(&V3c::new(x, y, z), &ContreeEntry::Visual(&color))
                            .ok()
                            .unwrap();
                    }
                }
            }
        }
        for x in 0..size {
            for y in 0..size {
                for z in 0..size {
                    let entry = tree.get(&V3c::new(x, y, z));
                    if (x + 2 * y + 3 * z) % 5 < 2 {
                        let color = colors[((x + y + z) % 3) as usize];
                        assert!(is_visual(&entry, &color), "at {} {} {} dim {}", x, y, z, dim);
                    } else {
                        assert!(is_empty(&entry), "at {} {} {} dim {}", x, y, z, dim);
                    }
                }
            }
        }
    }
}

#[test]
fn insert_out_of_bounds_is_rejected() {
    let mut tree = Contree::<u32>::new(16, 4).ok().unwrap();
    let r = tree.insert(&V3c::new(16, 0, 3), &ContreeEntry::Visual(&red()));
    assert!(matches!(r, Err(ContreeError::InvalidPosition { x: 16, y: 0, z: 3 })));
    let r = tree.clear(&V3c::new(0, 99, 0));
    assert!(matches!(r, Err(ContreeError::InvalidPosition { x: 0, y: 99, z: 0 })));
}

#[test]
fn clear_then_get_is_empty() {
    let mut tree = Contree::<u32>::new(64, 4).ok().unwrap();
    for x in 0..8 {
        for y in 0..8 {
            for z in 0..8 {
                tree.insert(&V3c::new(x, y, z), &ContreeEntry::Visual(&red())).ok().unwrap();
            }
        }
    }
    tree.clear(&V3c::new(3, 3, 3)).ok().unwrap();
    assert!(is_empty(&tree.get(&V3c::new(3, 3, 3))));
    assert!(is_visual(&tree.get(&V3c::new(3, 3, 4)), &red()));
    assert!(is_visual(&tree.get(&V3c::new(0, 0, 0)), &red()));
    for x in 0..8 {
        for y in 0..8 {
            for z in 0..8 {
                tree.clear(&V3c::new(x, y, z)).ok().unwrap();
            }
        }
    }
    for x in 0..8 {
        for y in 0..8 {
            for z in 0..8 {
                assert!(is_empty(&tree.get(&V3c::new(x, y, z))));
            }
        }
    }
}

#[test]
fn update_writes_one_field_only() {
    let mut tree = Contree::<u32>::new(32, 2).ok().unwrap();
    let position = V3c::new(5, 6, 7);
    let data: u32 = 42;
    tree.insert(&position, &ContreeEntry::Complex(&red(), &data)).ok().unwrap();
    tree.update(&position, &ContreeEntry::Visual(&green())).ok().unwrap();
    assert!(matches!(
        tree.get(&position),
        ContreeEntry::Complex(c, d) if *c == green() && *d == 42
    ));
    let other: u32 = 7;
    tree.update(&position, &ContreeEntry::Informative(&other)).ok().unwrap();
    assert!(matches!(
        tree.get(&position),
        ContreeEntry::Complex(c, d) if *c == green() && *d == 7
    ));
    tree.update(&position, &ContreeEntry::Empty).ok().unwrap();
    assert!(matches!(
        tree.get(&position),
        ContreeEntry::Complex(c, d) if *c == green() && *d == 7
    ));
}

#[test]
fn palette_holds_each_color_once() {
    let mut tree = Contree::<u32>::new(16, 4).ok().unwrap();
    tree.insert(&V3c::new(0, 0, 0), &ContreeEntry::Visual(&red())).ok().unwrap();
    assert_eq!(tree.voxel_color_palette.len(), 1);
    tree.insert(&V3c::new(1, 0, 0), &ContreeEntry::Visual(&red())).ok().unwrap();
    assert_eq!(tree.voxel_color_palette.len(), 1);
    tree.insert(&V3c::new(2, 0, 0), &ContreeEntry::Visual(&blue())).ok().unwrap();
    assert_eq!(tree.voxel_color_palette.len(), 2);
    let transparent = Albedo { r: 9, g: 9, b: 9, a: 0 };
    tree.insert(&V3c::new(3, 0, 0), &ContreeEntry::Visual(&transparent)).ok().unwrap();
    assert_eq!(tree.voxel_color_palette.len(), 2);
    assert!(is_empty(&tree.get(&V3c::new(3, 0, 0))));
    let nothing: u32 = 0;
    tree.insert(&V3c::new(4, 0, 0), &ContreeEntry::Informative(&nothing)).ok().unwrap();
    assert_eq!(tree.voxel_data_palette.len(), 0);
    let seven: u32 = 7;
    tree.insert(&V3c::new(4, 0, 0), &ContreeEntry::Informative(&seven)).ok().unwrap();
    tree.insert(&V3c::new(5, 0, 0), &ContreeEntry::Complex(&red(), &seven)).ok().unwrap();
    assert_eq!(tree.voxel_data_palette.len(), 1);
    assert_eq!(tree.voxel_color_palette.len(), 2);
}

#[test]
fn insert_at_lod_fills_the_aligned_cube() {
    let mut tree = Contree::<u32>::new(128, 8).ok().unwrap();
    tree.insert_at_lod(&V3c::new(0, 0, 0), 16, &ContreeEntry::Visual(&blue())).ok().unwrap();
    for x in 0..16 {
        for y in 0..16 {
            for z in 0..16 {
                assert!(is_visual(&tree.get(&V3c::new(x, y, z)), &blue()));
            }
        }
    }
    assert!(is_empty(&tree.get(&V3c::new(16, 0, 0))));
    assert!(is_empty(&tree.get(&V3c::new(0, 16, 0))));
    assert!(is_empty(&tree.get(&V3c::new(0, 0, 16))));
}

#[test]
fn clear_at_lod_leaves_voxels_near_unaligned_faces() {
    let mut tree = Contree::<u32>::new(128, 8).ok().unwrap();
    tree.auto_simplify = false;
    for x in 0..72 {
        for y in 0..72 {
            for z in 0..72 {
                tree.insert(&V3c::new(x, y, z), &ContreeEntry::Visual(&red())).ok().unwrap();
            }
        }
    }
    tree.clear_at_lod(&V3c::new(5, 5, 5), 64).ok().unwrap();
    // the position itself is cleared
    assert!(is_empty(&tree.get(&V3c::new(5, 5, 5))));
    // voxels before the position are kept
    assert!(is_visual(&tree.get(&V3c::new(4, 5, 5)), &red()));
    // the cube asked for reaches to 68 on each axis, but is applied up to the face of the
    // node of the position only
    assert!(is_visual(&tree.get(&V3c::new(68, 68, 68)), &red()));
    assert!(is_visual(&tree.get(&V3c::new(69, 69, 69)), &red()));
    let mut cleared = 0;
    let mut kept = 0;
    for x in 5..69 {
        for y in 5..69 {
            for z in 5..69 {
                if is_empty(&tree.get(&V3c::new(x, y, z))) {
                    cleared += 1;
                } else {
                    kept += 1;
                }
            }
        }
    }
    assert!(cleared > 0);
    assert!(kept > 0);
}

#[test]
fn simplify_keeps_every_voxel() {
    let mut tree = Contree::<u32>::new(64, 4).ok().unwrap();
    tree.auto_simplify = false;
    let colors = [red(), green(), blue()];
    let mut state: u32 = 12345;
    let mut expected = vec![0u8; 64 * 64 * 64];
    for _ in 0..3000 {
        state = state.wrapping_mul(1664525).wrapping_add(1013904223);
        let x = (state >> 8) % 64;
        let y = (state >> 14) % 64;
        let z = (state >> 20) % 64;
        let pick = (state >> 28) % 4;
        let index = (x + y * 64 + z * 64 * 64) as usize;
        if pick == 3 {
            tree.clear(&V3c::new(x, y, z)).ok().unwrap();
            expected[index] = 0;
        } else {
            tree.insert(&V3c::new(x, y, z), &ContreeEntry::Visual(&colors[pick as usize]))
                .ok()
                .unwrap();
            expected[index] = pick as u8 + 1;
        }
    }
    // fill one node of the lowest level with one color
    for x in 16..32 {
        for y in 16..32 {
            for z in 16..32 {
                tree.insert(&V3c::new(x, y, z), &ContreeEntry::Visual(&green())).ok().unwrap();
                expected[(x + y * 64 + z * 64 * 64) as usize] = 2;
            }
        }
    }
    tree.simplify(0, true);
    for x in 0..64u32 {
        for y in 0..64u32 {
            for z in 0..64u32 {
                let entry = tree.get(&V3c::new(x, y, z));
                match expected[(x + y * 64 + z * 64 * 64) as usize] {
                    0 => assert!(is_empty(&entry)),
                    n => assert!(is_visual(&entry, &colors[n as usize - 1])),
                }
            }
        }
    }
}

#[test]
fn filled_tree_becomes_one_leaf() {
    let mut tree = Contree::<u32>::new(16, 1).ok().unwrap();
    for x in 0..16 {
        for y in 0..16 {
            for z in 0..16 {
                tree.insert(&V3c::new(x, y, z), &ContreeEntry::Visual(&red())).ok().unwrap();
            }
        }
    }
    for x in 0..16 {
        for y in 0..16 {
            for z in 0..16 {
                assert!(is_visual(&tree.get(&V3c::new(x, y, z)), &red()));
            }
        }
    }
    // all nodes but the root were freed again
    assert!(!tree.nodes.key_is_valid(1));
    tree.insert(&V3c::new(3, 3, 3), &ContreeEntry::Visual(&blue())).ok().unwrap();
    assert!(is_visual(&tree.get(&V3c::new(3, 3, 3)), &blue()));
    assert!(is_visual(&tree.get(&V3c::new(3, 3, 4)), &red()));
    assert!(is_visual(&tree.get(&V3c::new(15, 15, 15)), &red()));
}

#[test]
fn leaves_keep_their_occupancy_bitmaps() {
    let mut tree = Contree::<u32>::new(16, 1).ok().unwrap();
    tree.auto_simplify = false;
    tree.insert(&V3c::new(0, 0, 0), &ContreeEntry::Visual(&red())).ok().unwrap();
    tree.insert(&V3c::new(3, 3, 3), &ContreeEntry::Visual(&red())).ok().unwrap();
    tree.insert(&V3c::new(4, 0, 0), &ContreeEntry::Visual(&red())).ok().unwrap();
    // the root is divided: its bitmap tells which children it has
    assert_eq!(tree.stored_occupied_bits(0), 0b11);
    let first = match tree.node_children[0] {
        contree::types::VoxelChildren::Children(c) => c[0] as usize,
        _ => panic!("the root has children"),
    };
    // the child is a leaf: its bitmap tells which bricks hold something
    assert_eq!(tree.stored_occupied_bits(first), 0x8000_0000_0000_0001);
    tree.store_occupied_bits(first, 0x8000_0000_0000_0001);
    assert_eq!(tree.stored_occupied_bits(first), 0x8000_0000_0000_0001);
    tree.store_occupied_bits(0, 0b11);
    assert_eq!(tree.stored_occupied_bits(0), 0b11);
    assert!(!tree.node_empty_at(first, 0));
    assert!(tree.node_empty_at(first, 1));
    assert!(!tree.node_empty_at(0, 0));
    assert!(!tree.node_empty_at(0, 1));
    assert!(tree.node_empty_at(0, 2));
    tree.clear(&V3c::new(3, 3, 3)).ok().unwrap();
    assert_eq!(tree.stored_occupied_bits(first), 1);
    // a child that holds nothing any more is freed
    tree.clear(&V3c::new(4, 0, 0)).ok().unwrap();
    assert_eq!(tree.stored_occupied_bits(0), 0b01);
    tree.clear(&V3c::new(0, 0, 0)).ok().unwrap();
    assert_eq!(tree.stored_occupied_bits(0), 0);
    assert!(matches!(tree.nodes.get(0), contree::types::VoxelContent::Nothing));
    assert!(!tree.nodes.key_is_valid(first));
}

#[test]
fn identical_children_that_show_several_values_stay_divided() {
    // a tree of three levels; each node of the lowest level holds the same pattern
    let mut tree = Contree::<u32>::new(16, 1).ok().unwrap();
    tree.auto_simplify = false;
    for cx in 0..4 {
        for cy in 0..4 {
            for cz in 0..4 {
                for x in 0..4 {
                    for y in 0..4 {
                        for z in 0..4 {
                            let color = if x == 0 && y == 0 && z == 0 { red() } else { blue() };
                            tree.insert(
                                &V3c::new(4 * cx + x, 4 * cy + y, 4 * cz + z),
                                &ContreeEntry::Visual(&color),
                            )
                            .ok()
                            .unwrap();
                        }
                    }
                }
            }
        }
    }
    // as a leaf the root would show each child at a quarter of its resolution
    assert!(!tree.simplify(0, true));
    assert!(matches!(tree.nodes.get(0), contree::types::VoxelContent::Internal(_)));
    for x in 0..16u32 {
        for y in 0..16u32 {
            for z in 0..16u32 {
                let color = if x % 4 == 0 && y % 4 == 0 && z % 4 == 0 { red() } else { blue() };
                assert!(is_visual(&tree.get(&V3c::new(x, y, z)), &color));
            }
        }
    }
}

#[test]
fn identical_children_that_show_one_value_become_one_leaf() {
    let mut tree = Contree::<u32>::new(16, 1).ok().unwrap();
    tree.auto_simplify = false;
    for x in 0..16u32 {
        for y in 0..16u32 {
            for z in 0..16u32 {
                tree.insert(&V3c::new(x, y, z), &ContreeEntry::Visual(&blue())).ok().unwrap();
            }
        }
    }
    assert!(matches!(tree.nodes.get(0), contree::types::VoxelContent::Internal(_)));
    assert_eq!(tree.stored_occupied_bits(0), u64::MAX);
    // without a look at the children they are leaves of sixty-four bricks: all the same,
    // and of one value
    assert!(tree.simplify(0, false));
    assert!(matches!(tree.nodes.get(0), contree::types::VoxelContent::Leaf(_)));
    assert!(tree.simplify(0, false));
    assert!(matches!(
        tree.nodes.get(0),
        contree::types::VoxelContent::UniformLeaf(contree::types::ChunkData::Solid(_))
    ));
    for key in 1..65usize {
        assert!(!tree.nodes.key_is_valid(key));
    }
    for x in 0..16u32 {
        for y in 0..16u32 {
            for z in 0..16u32 {
                assert!(is_visual(&tree.get(&V3c::new(x, y, z)), &blue()));
            }
        }
    }
    // writing a voxel divides the leaf again
    tree.insert(&V3c::new(9, 9, 9), &ContreeEntry::Visual(&green())).ok().unwrap();
    assert!(is_visual(&tree.get(&V3c::new(9, 9, 9)), &green()));
    assert!(is_visual(&tree.get(&V3c::new(9, 9, 10)), &blue()));
    assert!(is_visual(&tree.get(&V3c::new(1, 1, 1)), &blue()));
}

#[test]
fn a_uniform_tree_is_one_solid_leaf() {
    let mut tree = Contree::<u32>::new(64, 4).ok().unwrap();
    tree.insert_at_lod(&V3c::new(0, 0, 0), 64, &ContreeEntry::Visual(&green())).ok().unwrap();
    assert!(matches!(
        tree.nodes.get(0),
        contree::types::VoxelContent::UniformLeaf(contree::types::ChunkData::Solid(_))
    ));
    assert!(is_visual(&tree.get(&V3c::new(63, 63, 63)), &green()));
    tree.clear_at_lod(&V3c::new(0, 0, 0), 64).ok().unwrap();
    assert!(tree.nodes.get(0).is_empty(&tree.voxel_color_palette, &tree.voxel_data_palette));
    assert_eq!(tree.stored_occupied_bits(0), 0);
    assert!(is_empty(&tree.get(&V3c::new(63, 63, 63))));
    // a brick of empty voxels only is given up by the next simplification
    assert!(tree.simplify(0, false));
    assert!(matches!(tree.nodes.get(0), contree::types::VoxelContent::Nothing));
    assert!(is_empty(&tree.get(&V3c::new(63, 63, 63))));
    assert!(is_empty(&tree.get(&V3c::new(0, 0, 0))));
    // an update of no size changes nothing
    tree.insert_at_lod(&V3c::new(0, 0, 0), 0, &ContreeEntry::Visual(&green())).ok().unwrap();
    assert!(is_empty(&tree.get(&V3c::new(0, 0, 0))));
}

#[test]
fn an_insert_is_kept_where_it_makes_the_children_of_a_node_identical() {
    // with simplification on: the last insert makes the sixty-four children of the root
    // identical, but they show two colors each, and stay
    let mut tree = Contree::<u32>::new(32, 2).ok().unwrap();
    assert!(tree.auto_simplify);
    let last = V3c::new(25, 25, 25);
    for x in 0..32u32 {
        for y in 0..32u32 {
            for z in 0..32u32 {
                if x == 25 && y == 25 && z == 25 {
                    continue;
                }
                let color = if x % 8 < 2 && y % 8 < 2 && z % 8 < 2 { red() } else { blue() };
                tree.insert(&V3c::new(x, y, z), &ContreeEntry::Visual(&color)).ok().unwrap();
                assert!(is_visual(&tree.get(&V3c::new(x, y, z)), &color));
            }
        }
    }
    tree.insert(&last, &ContreeEntry::Visual(&red())).ok().unwrap();
    assert!(matches!(tree.nodes.get(0), contree::types::VoxelContent::Internal(_)));
    for x in 0..32u32 {
        for y in 0..32u32 {
            for z in 0..32u32 {
                let color = if x % 8 < 2 && y % 8 < 2 && z % 8 < 2 { red() } else { blue() };
                assert!(is_visual(&tree.get(&V3c::new(x, y, z)), &color));
            }
        }
    }
}

#[test]
fn a_bulk_insert_is_taken_at_the_resolution_of_the_bricks() {
    // the root takes the update: its bricks hold one value for each cube of four voxels, so
    // the update starts at the face of such a cube, and ends at the faces of the sectants
    // that the shortened update reaches
    let mut tree = Contree::<u32>::new(128, 8).ok().unwrap();
    tree.insert_at_lod(&V3c::new(5, 5, 5), 64, &ContreeEntry::Visual(&blue())).ok().unwrap();
    assert!(is_visual(&tree.get(&V3c::new(5, 5, 5)), &blue()));
    assert!(is_visual(&tree.get(&V3c::new(4, 4, 4)), &blue()));
    assert!(is_empty(&tree.get(&V3c::new(3, 5, 5))));
    assert!(is_empty(&tree.get(&V3c::new(5, 3, 5))));
    assert!(is_visual(&tree.get(&V3c::new(63, 63, 63)), &blue()));
    assert!(is_visual(&tree.get(&V3c::new(5, 5, 32)), &blue()));
    assert!(is_empty(&tree.get(&V3c::new(64, 5, 5))));
    assert!(is_empty(&tree.get(&V3c::new(68, 68, 68))));
    for x in 0..72u32 {
        for y in (0..72u32).step_by(3) {
            for z in (0..72u32).step_by(5) {
                let inside = x >= 4 && y >= 4 && z >= 4 && x < 64 && y < 64 && z < 64;
                let entry = tree.get(&V3c::new(x, y, z));
                assert_eq!(is_visual(&entry, &blue()), inside);
                assert_eq!(is_empty(&entry), !inside);
            }
        }
    }
}

#[test]
fn a_write_into_a_divided_node_keeps_the_uniform_children_only() {
    let mut tree = Contree::<u32>::new(64, 4).ok().unwrap();
    tree.auto_simplify = false;
    // a child of the root with one voxel, and a child that is filled voxel by voxel
    tree.insert(&V3c::new(17, 1, 1), &ContreeEntry::Visual(&red())).ok().unwrap();
    for x in 32..48u32 {
        for y in 0..16u32 {
            for z in 0..16u32 {
                tree.insert(&V3c::new(x, y, z), &ContreeEntry::Visual(&green())).ok().unwrap();
            }
        }
    }
    let filled = match tree.node_children[0] {
        contree::types::VoxelChildren::Children(c) => c[2] as usize,
        _ => panic!("the root has children"),
    };
    assert!(tree.simplify(filled, false));
    assert!(matches!(
        tree.nodes.get(filled),
        contree::types::VoxelContent::UniformLeaf(_)
    ));
    assert!(is_visual(&tree.get(&V3c::new(17, 1, 1)), &red()));
    assert!(is_visual(&tree.get(&V3c::new(40, 8, 8)), &green()));
    // the root takes an update of its size: the child that is a uniform leaf gives its
    // brick, the other child is lost
    tree.insert_at_lod(&V3c::new(0, 0, 0), 16, &ContreeEntry::Visual(&blue())).ok().unwrap();
    assert!(matches!(tree.nodes.get(0), contree::types::VoxelContent::Leaf(_)));
    assert!(is_visual(&tree.get(&V3c::new(1, 1, 1)), &blue()));
    assert!(is_visual(&tree.get(&V3c::new(15, 15, 15)), &blue()));
    assert!(is_visual(&tree.get(&V3c::new(40, 8, 8)), &green()));
    assert!(is_empty(&tree.get(&V3c::new(17, 1, 1))));
    assert!(!tree.nodes.key_is_valid(filled));
}

#[test]
fn simplification_tells_whether_a_node_was_simplified() {
    let mut tree = Contree::<u32>::new(16, 1).ok().unwrap();
    tree.auto_simplify = false;
    let root_bounds = contree::spatial::Cube::root_bounds(16);
    // a node that holds nothing counts as simplified; a key that names no node does not
    assert!(tree.simplify(0, false));
    assert!(tree.simplify(0, true));
    assert!(!tree.simplify(77, false));
    assert!(tree.simplify_path(0, &root_bounds, &V3c::new(4, 0, 0)));
    tree.insert(&V3c::new(4, 0, 0), &ContreeEntry::Visual(&red())).ok().unwrap();
    let child = match tree.node_children[0] {
        contree::types::VoxelChildren::Children(c) => c[1] as usize,
        _ => panic!("the root has children"),
    };
    // the child holds a voxel: it is not freed, and its leaf can not be simplified
    assert!(!tree.free_child_if_empty(0, 1));
    assert!(tree.nodes.key_is_valid(child));
    assert!(!tree.simplify_path(0, &root_bounds, &V3c::new(4, 0, 0)));
    assert!(matches!(tree.nodes.get(child), contree::types::VoxelContent::Leaf(_)));
    assert!(is_visual(&tree.get(&V3c::new(4, 0, 0)), &red()));
    for x in 4..8u32 {
        for y in 0..4u32 {
            for z in 0..4u32 {
                tree.insert(&V3c::new(x, y, z), &ContreeEntry::Visual(&red())).ok().unwrap();
            }
        }
    }
    // the child becomes a uniform leaf; the root, with one child only, stays divided
    assert!(!tree.simplify_path(0, &root_bounds, &V3c::new(4, 0, 0)));
    assert!(matches!(
        tree.nodes.get(child),
        contree::types::VoxelContent::UniformLeaf(contree::types::ChunkData::Solid(_))
    ));
    assert!(matches!(tree.nodes.get(0), contree::types::VoxelContent::Internal(_)));
    assert!(!tree.simplify(0, true));
    assert!(!tree.simplify(child, false));
    assert!(is_visual(&tree.get(&V3c::new(7, 3, 3)), &red()));
    assert!(is_empty(&tree.get(&V3c::new(8, 0, 0))));
    // a child that holds nothing is freed, and the root holds nothing then
    let content = tree.take_content(child);
    assert!(matches!(content, contree::types::VoxelContent::UniformLeaf(_)));
    assert!(tree.free_child_if_empty(0, 1));
    assert!(!tree.nodes.key_is_valid(child));
    assert!(matches!(tree.nodes.get(0), contree::types::VoxelContent::Nothing));
    assert!(is_empty(&tree.get(&V3c::new(4, 0, 0))));
}
