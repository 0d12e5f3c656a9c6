use contree::object_pool::ObjectPool;
use contree::spatial::{
    child_sectant_for, matrix_index_for, octant_in_sectants, Cube, V3c,
};
use contree::tree::Contree;
use contree::types::{
    Albedo, ChunkData, ContreeEntry, VoxelChildren, VoxelContent, EMPTY_MARKER,
};

fn palettes() -> (Vec<Albedo>, Vec<u32>) {
    (
        vec![
            Albedo { r: 255, g: 0, b: 0, a: 255 },
            Albedo { r: 0, g: 255, b: 0, a: 255 },
        ],
        vec![7, 9],
    )
}

#[test]
fn palette_index_values_pack_two_indices() {
    assert_eq!(VoxelContent::pix_visual(3), 0xFFFF_0003);
    assert_eq!(VoxelContent::pix_informal(5), 0x0005_FFFF);
    assert_eq!(VoxelContent::pix_complex(3, 5), 0x0005_0003);
    assert_eq!(VoxelContent::pix_color_index(&0x0005_0003), 3);
    assert_eq!(VoxelContent::pix_data_index(&0x0005_0003), 5);
    assert_eq!(VoxelContent::pix_overwrite_color(0x0005_0003, &0x0009_0001), 0x0005_0001);
    assert_eq!(VoxelContent::pix_overwrite_data(0x0005_0003, &0x0009_0001), 0x0009_0003);
    assert!(VoxelContent::pix_color_is_some(&0xFFFF_0003));
    assert!(VoxelContent::pix_color_is_none(&0x0005_FFFF));
    assert!(VoxelContent::pix_data_is_none(&0xFFFF_0003));
    assert!(VoxelContent::pix_data_is_some(&0x0005_FFFF));
    assert!(VoxelContent::pix_color_is_none(&EMPTY_MARKER));
    assert!(VoxelContent::pix_data_is_none(&EMPTY_MARKER));
}

#[test]
fn palette_index_values_give_entries() {
    let (colors, data) = palettes();
    assert!(matches!(
        VoxelContent::pix_get_ref(&EMPTY_MARKER, &colors, &data),
        ContreeEntry::Empty
    ));
    assert!(matches!(
        VoxelContent::pix_get_ref(&0xFFFF_0001, &colors, &data),
        ContreeEntry::Visual(c) if *c == colors[1]
    ));
    assert!(matches!(
        VoxelContent::pix_get_ref(&0x0000_FFFF, &colors, &data),
        ContreeEntry::Informative(d) if *d == 7
    ));
    assert!(matches!(
        VoxelContent::pix_get_ref(&0x0001_0000, &colors, &data),
        ContreeEntry::Complex(c, d) if *c == colors[0] && *d == 9
    ));
    assert!(VoxelContent::pix_points_to_empty(&EMPTY_MARKER, &colors, &data));
    assert!(!VoxelContent::pix_points_to_empty(&0xFFFF_0001, &colors, &data));
    let transparent = vec![Albedo { r: 1, g: 1, b: 1, a: 0 }];
    let nothing: Vec<u32> = vec![0];
    assert!(VoxelContent::pix_points_to_empty(&0x0000_0000, &transparent, &nothing));
    assert!(VoxelContent::pix_points_to_empty(&0xFFFF_0000, &transparent, &nothing));
}

#[test]
fn bricks_tell_their_occupancy() {
    let (colors, data) = palettes();
    assert_eq!(ChunkData::Empty.calculate_occupied_bits(4, &colors, &data), 0);
    assert_eq!(
        ChunkData::Solid(0xFFFF_0000).calculate_occupied_bits(4, &colors, &data),
        u64::MAX
    );
    assert_eq!(ChunkData::Solid(EMPTY_MARKER).calculate_occupied_bits(4, &colors, &data), 0);
    let mut values = vec![EMPTY_MARKER; 64];
    values[0] = 0xFFFF_0000;
    values[63] = 0xFFFF_0001;
    assert_eq!(
        ChunkData::calculate_chunk_occupied_bits(&values, 4, &colors, &data),
        0x8000_0000_0000_0001
    );
    let mut small = vec![EMPTY_MARKER; 8];
    small[0] = 0xFFFF_0000;
    assert_eq!(
        ChunkData::calculate_chunk_occupied_bits(&small, 2, &colors, &data),
        0x0000_0000_0033_0033
    );
    let mut large = vec![EMPTY_MARKER; 512];
    large[7 + 7 * 8 + 7 * 64] = 0xFFFF_0000;
    assert_eq!(
        ChunkData::Parted(large).calculate_occupied_bits(8, &colors, &data),
        0x8000_0000_0000_0000
    );
}

#[test]
fn bricks_are_simplified_when_they_hold_one_value() {
    let (colors, data) = palettes();
    assert_eq!(ChunkData::Empty.get_homogeneous_data(), None);
    assert_eq!(ChunkData::Solid(5).get_homogeneous_data(), Some(5));
    assert_eq!(ChunkData::Parted(vec![5, 5, 5]).get_homogeneous_data(), Some(5));
    assert_eq!(ChunkData::Parted(vec![5, 6, 5]).get_homogeneous_data(), None);
    assert!(ChunkData::Empty.contains_nothing(&colors, &data));
    assert!(ChunkData::Solid(EMPTY_MARKER).contains_nothing(&colors, &data));
    assert!(!ChunkData::Solid(0xFFFF_0000).contains_nothing(&colors, &data));
    assert!(ChunkData::Parted(vec![EMPTY_MARKER; 8]).contains_nothing(&colors, &data));
    assert!(!ChunkData::Parted(vec![EMPTY_MARKER, 0xFFFF_0001]).contains_nothing(&colors, &data));

    let mut brick = ChunkData::Parted(vec![0xFFFF_0001; 8]);
    assert!(brick.simplify(&colors, &data));
    assert!(brick.equals(&ChunkData::Solid(0xFFFF_0001)));
    let mut brick = ChunkData::Parted(vec![EMPTY_MARKER; 8]);
    assert!(brick.simplify(&colors, &data));
    assert!(brick.equals(&ChunkData::Empty));
    let mut brick = ChunkData::Parted(vec![EMPTY_MARKER, 0xFFFF_0001]);
    assert!(!brick.simplify(&colors, &data));
    assert!(brick.equals(&ChunkData::Parted(vec![EMPTY_MARKER, 0xFFFF_0001])));
    let mut brick = ChunkData::Empty;
    assert!(!brick.simplify(&colors, &data));
    assert!(brick.duplicate().equals(&ChunkData::Empty));
}

#[test]
fn contents_are_compared_brick_by_brick() {
    let (colors, data) = palettes();
    let solid = VoxelContent::UniformLeaf(ChunkData::Solid(0xFFFF_0000));
    let same = VoxelContent::UniformLeaf(ChunkData::Parted(vec![0xFFFF_0000; 8]));
    let mut bricks = Vec::new();
    for _ in 0..64 {
        bricks.push(ChunkData::Solid(0xFFFF_0000));
    }
    let leaf = VoxelContent::Leaf(bricks);
    assert!(solid.is_all(&0xFFFF_0000));
    assert!(same.is_all(&0xFFFF_0000));
    assert!(leaf.is_all(&0xFFFF_0000));
    assert!(!leaf.is_all(&0xFFFF_0001));
    assert!(!VoxelContent::Nothing.is_all(&EMPTY_MARKER));
    assert!(!VoxelContent::Internal(1).is_all(&0));
    assert!(!VoxelContent::UniformLeaf(ChunkData::Empty).is_all(&EMPTY_MARKER));

    assert!(VoxelContent::Nothing.is_empty(&colors, &data));
    assert!(!VoxelContent::Internal(0).is_empty(&colors, &data));
    assert!(VoxelContent::UniformLeaf(ChunkData::Empty).is_empty(&colors, &data));
    assert!(!solid.is_empty(&colors, &data));
    assert!(!leaf.is_empty(&colors, &data));

    assert!(VoxelContent::Nothing.compare(&VoxelContent::Nothing));
    assert!(!VoxelContent::Nothing.compare(&solid));
    assert!(!VoxelContent::Internal(1).compare(&VoxelContent::Internal(1)));
    assert!(solid.compare(&solid.duplicate()));
    assert!(!solid.compare(&same));
    assert!(leaf.compare(&leaf.duplicate()));
    assert!(!leaf.compare(&solid));
}

#[test]
fn children_descriptors_keep_the_keys_of_children() {
    let mut children = VoxelChildren::default();
    assert_eq!(children.child(5), EMPTY_MARKER as usize);
    assert!(children.iter().is_none());
    children.set_child(5, 17);
    assert_eq!(children.child(5), 17);
    assert_eq!(children.child(6), EMPTY_MARKER as usize);
    let keys = children.iter().unwrap();
    assert_eq!(keys.len(), 64);
    assert_eq!(keys[5], 17);
    assert_eq!(keys[0], EMPTY_MARKER);
    children.set_child(9, 3);
    children.clear(5);
    assert_eq!(children.child(5), EMPTY_MARKER as usize);
    assert_eq!(children.child(9), 3);
    children.clear(9);
    assert!(matches!(children, VoxelChildren::NoChildren));
    let mut bitmap = VoxelChildren::OccupancyBitmap(5);
    bitmap.clear(3);
    assert!(matches!(bitmap, VoxelChildren::OccupancyBitmap(5)));
    assert_eq!(bitmap.child(0), EMPTY_MARKER as usize);
}

#[test]
fn the_pool_gives_freed_keys_out_again() {
    let mut pool: ObjectPool<u32> = ObjectPool::with_capacity(4);
    assert_eq!(pool.len(), 0);
    assert_eq!(pool.push(10), 0);
    assert_eq!(pool.push(11), 1);
    assert_eq!(pool.push(12), 2);
    assert!(pool.key_is_valid(1));
    assert!(!pool.key_is_valid(3));
    assert_eq!(*pool.get(1), 11);
    assert!(pool.free(1));
    assert!(!pool.free(1));
    assert!(!pool.free(9));
    assert!(!pool.key_is_valid(1));
    assert_eq!(pool.len(), 3);
    assert_eq!(pool.push(13), 1);
    assert_eq!(*pool.get(1), 13);
    assert_eq!(pool.replace(1, 14), 13);
    *pool.get_mut(2) = 15;
    assert_eq!(*pool.get(2), 15);
    assert_eq!(pool.push(16), 3);
    assert!(pool.free(0));
    assert!(pool.free(2));
    assert_eq!(pool.push(17), 0);
    assert_eq!(pool.push(18), 2);
}

#[test]
fn cubes_are_divided_into_sectants() {
    let bounds = Cube { min_position: V3c::new(16, 32, 48), size: 16 };
    assert!(bounds.contains(&V3c::new(16, 32, 48)));
    assert!(bounds.contains(&V3c::new(31, 47, 63)));
    assert!(!bounds.contains(&V3c::new(32, 32, 48)));
    assert!(!bounds.contains(&V3c::new(15, 32, 48)));
    assert_eq!(child_sectant_for(&bounds, &V3c::new(16, 32, 48)), 0);
    assert_eq!(child_sectant_for(&bounds, &V3c::new(20, 32, 48)), 1);
    assert_eq!(child_sectant_for(&bounds, &V3c::new(31, 47, 63)), 63);
    assert_eq!(child_sectant_for(&bounds, &V3c::new(25, 37, 59)), 2 + 4 + 32);
    let child = bounds.child_bounds_for(2 + 4 + 32);
    assert_eq!(child, Cube { min_position: V3c::new(24, 36, 56), size: 4 });
    assert_eq!(Cube::root_bounds(64), Cube { min_position: V3c::new(0, 0, 0), size: 64 });
    let index = matrix_index_for(&bounds, &V3c::new(25, 37, 59), 8);
    assert_eq!(index, V3c::new(4, 2, 5));
    let index = matrix_index_for(&bounds, &V3c::new(25, 37, 59), 16);
    assert_eq!(index, V3c::new(9, 5, 11));
    assert_eq!(octant_in_sectants(0), 0);
    assert_eq!(octant_in_sectants(3), 1);
    assert_eq!(octant_in_sectants(12), 2);
    assert_eq!(octant_in_sectants(63), 7);
    assert_eq!(octant_in_sectants(2 + 4 + 32), 1 + 4);
}

#[test]
fn a_brick_is_updated_in_the_box_that_the_update_reaches() {
    let bounds = Cube { min_position: V3c::new(8, 8, 8), size: 4 };
    let mut brick = vec![1u32; 64];
    let updated =
        Contree::<u32>::update_chunk(true, &mut brick, &bounds, 4, V3c::new(10, 9, 8), 3, &7);
    assert_eq!(updated, 2);
    for x in 0..4 {
        for y in 0..4 {
            for z in 0..4 {
                let expected = if x >= 2 && y >= 1 && z < 3 { 7 } else { 1 };
                assert_eq!(brick[x + 4 * y + 16 * z], expected);
            }
        }
    }
    // without overwriting, only the halves that the value holds are written
    let mut brick = vec![0x0005_0003u32; 8];
    let bounds = Cube { min_position: V3c::new(0, 0, 0), size: 2 };
    Contree::<u32>::update_chunk(false, &mut brick, &bounds, 2, V3c::new(1, 1, 1), 1, &0xFFFF_0001);
    assert_eq!(brick[7], 0x0005_0001);
    assert_eq!(brick[6], 0x0005_0003);
    Contree::<u32>::update_chunk(false, &mut brick, &bounds, 2, V3c::new(0, 0, 0), 1, &0x0002_FFFF);
    assert_eq!(brick[0], 0x0002_0003);
    Contree::<u32>::update_chunk(false, &mut brick, &bounds, 2, V3c::new(0, 0, 0), 2, &EMPTY_MARKER);
    assert_eq!(brick[0], 0x0002_0003);
    // a brick that stands for a larger cube takes the update at its own resolution
    let bounds = Cube { min_position: V3c::new(0, 0, 0), size: 8 };
    let mut brick = vec![1u32; 8];
    Contree::<u32>::update_chunk(true, &mut brick, &bounds, 2, V3c::new(5, 1, 1), 1, &9);
    assert_eq!(brick, vec![1, 9, 1, 1, 1, 1, 1, 1]);
}

#[test]
fn a_brick_is_spread_over_the_sectants() {
    // one voxel: each sectant shows it
    let spread = Contree::<u32>::dilute_chunk_data(vec![5], 1);
    assert_eq!(spread.len(), 64);
    assert!(spread.iter().all(|brick| *brick == vec![5]));
    // two voxels on an edge: each sectant shows the voxel of its octant
    let spread = Contree::<u32>::dilute_chunk_data(vec![0, 1, 2, 3, 4, 5, 6, 7], 2);
    for sectant in 0..64 {
        let octant = octant_in_sectants(sectant) as u32;
        assert_eq!(spread[sectant], vec![octant; 8]);
    }
    // four voxels on an edge: each sectant shows one voxel
    let values: Vec<u32> = (0..64).collect();
    let spread = Contree::<u32>::dilute_chunk_data(values, 4);
    for sectant in 0..64 {
        assert_eq!(spread[sectant], vec![sectant as u32; 64]);
    }
    // eight voxels on an edge: each sectant shows a block of 2x2x2 voxels, each of them as
    // a block of 4x4x4
    let values: Vec<u32> = (0..512).collect();
    let spread = Contree::<u32>::dilute_chunk_data(values, 8);
    for sectant in 0..64usize {
        let (sx, sy, sz) = (sectant % 4, (sectant / 4) % 4, sectant / 16);
        for x in 0..8usize {
            for y in 0..8usize {
                for z in 0..8usize {
                    let source = (2 * sx + x / 4) + 8 * (2 * sy + y / 4) + 64 * (2 * sz + z / 4);
                    assert_eq!(spread[sectant][x + 8 * y + 64 * z], source as u32);
                }
            }
        }
    }
}

#[test]
fn a_write_of_the_value_that_a_solid_brick_holds_changes_nothing() {
    let (colors, data) = palettes();
    let bounds = Cube { min_position: V3c::new(0, 0, 0), size: 8 };
    let target = bounds.child_bounds_for(0);
    let mut bricks = Vec::new();
    for _ in 0..64 {
        bricks.push(ChunkData::Solid(0xFFFF_0000));
    }
    let (content, updated) = Contree::<u32>::update_leaf_content(
        VoxelContent::Leaf(bricks),
        true,
        2,
        &colors,
        &data,
        &bounds,
        &target,
        0,
        &V3c::new(0, 0, 0),
        2,
        0xFFFF_0000,
    );
    assert_eq!(updated, 0);
    match content {
        VoxelContent::Leaf(bricks) => {
            assert_eq!(bricks.len(), 64);
            assert!(bricks.iter().all(|brick| matches!(brick, ChunkData::Solid(0xFFFF_0000))));
        },
        _ => panic!("the content is a leaf"),
    }
    // any other value makes the brick a matrix, and is written into it
    let mut bricks = Vec::new();
    for _ in 0..64 {
        bricks.push(ChunkData::Solid(0xFFFF_0000));
    }
    let (content, updated) = Contree::<u32>::update_leaf_content(
        VoxelContent::Leaf(bricks),
        true,
        2,
        &colors,
        &data,
        &bounds,
        &target,
        0,
        &V3c::new(1, 0, 0),
        2,
        0xFFFF_0001,
    );
    assert_eq!(updated, 1);
    match content {
        VoxelContent::Leaf(bricks) => {
            assert!(bricks[0].equals(&ChunkData::Parted(vec![
                0xFFFF_0000,
                0xFFFF_0001,
                0xFFFF_0000,
                0xFFFF_0001,
                0xFFFF_0000,
                0xFFFF_0001,
                0xFFFF_0000,
                0xFFFF_0001,
            ])));
            assert!(matches!(bricks[1], ChunkData::Solid(0xFFFF_0000)));
        },
        _ => panic!("the content is a leaf"),
    }
}

#[test]
fn a_uniform_leaf_that_holds_the_value_at_the_position_is_kept() {
    let (colors, data) = palettes();
    let bounds = Cube { min_position: V3c::new(0, 0, 0), size: 8 };
    let target = bounds.child_bounds_for(0);
    // the voxel at the position is empty already; the others are not, and stay
    let matrix = vec![EMPTY_MARKER, 0xFFFF_0000, 0xFFFF_0000, 0xFFFF_0000, 0xFFFF_0001,
        0xFFFF_0001, 0xFFFF_0001, 0xFFFF_0001];
    let (content, updated) = Contree::<u32>::update_leaf_content(
        VoxelContent::UniformLeaf(ChunkData::Parted(matrix.clone())),
        true,
        2,
        &colors,
        &data,
        &bounds,
        &target,
        0,
        &V3c::new(0, 0, 0),
        2,
        EMPTY_MARKER,
    );
    assert_eq!(updated, 0);
    match content {
        VoxelContent::UniformLeaf(brick) => assert!(brick.equals(&ChunkData::Parted(matrix))),
        _ => panic!("the content is a uniform leaf"),
    }
    // a uniform leaf that is solid with the empty marker holds nothing
    let (content, updated) = Contree::<u32>::update_leaf_content(
        VoxelContent::UniformLeaf(ChunkData::Solid(EMPTY_MARKER)),
        true,
        2,
        &colors,
        &data,
        &bounds,
        &target,
        0,
        &V3c::new(0, 0, 0),
        1,
        EMPTY_MARKER,
    );
    assert_eq!(updated, 0);
    assert!(matches!(content, VoxelContent::Nothing));
    // a solid uniform leaf that holds the value is kept
    let (content, updated) = Contree::<u32>::update_leaf_content(
        VoxelContent::UniformLeaf(ChunkData::Solid(0xFFFF_0001)),
        true,
        2,
        &colors,
        &data,
        &bounds,
        &target,
        0,
        &V3c::new(0, 0, 0),
        2,
        0xFFFF_0001,
    );
    assert_eq!(updated, 0);
    assert!(matches!(content, VoxelContent::UniformLeaf(ChunkData::Solid(0xFFFF_0001))));
}
