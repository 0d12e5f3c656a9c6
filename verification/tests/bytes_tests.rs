use contree::spatial::V3c;
use contree::tree::Contree;
use contree::types::{Albedo, ContreeEntry};

fn color(i: u32) -> Albedo {
    Albedo { r: (i % 7) as u8 * 30, g: (i % 5) as u8 * 50, b: (i % 3) as u8 * 100, a: 255 }
}

fn same_entry(a: &ContreeEntry<u32>, b: &ContreeEntry<u32>) -> bool {
    match (a, b) {
        (ContreeEntry::Empty, ContreeEntry::Empty) => true,
        (ContreeEntry::Visual(x), ContreeEntry::Visual(y)) => **x == **y,
        (ContreeEntry::Informative(x), ContreeEntry::Informative(y)) => **x == **y,
        (ContreeEntry::Complex(x, p), ContreeEntry::Complex(y, q)) => **x == **y && **p == **q,
        _ => false,
    }
}

#[test]
fn an_empty_tree_is_written_as_its_header_and_one_tag() {
    let tree = Contree::<u32>::new(16, 4).ok().unwrap();
    let bytes = tree.to_bytes();
    assert_eq!(
        bytes,
        vec![1, 16, 0, 0, 0, 4, 0, 0, 0, 0, 0, 0, 0, 0, 0, 0, 0, 1]
    );
    let restored = Contree::<u32>::from_bytes(&bytes).unwrap();
    assert_eq!(restored.get_size(), 16);
    assert_eq!(restored.chunk_dim, 4);
    assert!(restored.auto_simplify);
}

#[test]
fn a_tree_read_from_its_bytes_holds_the_same_entries() {
    for dim in [1u32, 2, 4] {
        let size = dim * 16;
        let mut tree = Contree::<u32>::new(size, dim).ok().unwrap();
        let mut state: u32 = 99;
        for _ in 0..500 {
            state = state.wrapping_mul(1664525).wrapping_add(1013904223);
            let x = (state >> 8) % size;
            let y = (state >> 14) % size;
            let z = (state >> 20) % size;
            let data = state % 4;
            let c = color(state >> 3);
            tree.insert(&V3c::new(x, y, z), &ContreeEntry::Complex(&c, &data)).ok().unwrap();
        }
        tree.insert_at_lod(&V3c::new(0, 0, 0), 4 * dim, &ContreeEntry::Visual(&color(1)))
            .ok()
            .unwrap();
        let bytes = tree.to_bytes();
        let restored = Contree::<u32>::from_bytes(&bytes).unwrap();
        assert_eq!(restored.get_size(), tree.get_size());
        assert_eq!(restored.voxel_color_palette, tree.voxel_color_palette);
        assert_eq!(restored.voxel_data_palette, tree.voxel_data_palette);
        for x in 0..size {
            for y in 0..size {
                for z in 0..size {
                    let p = V3c::new(x, y, z);
                    assert!(same_entry(&tree.get(&p), &restored.get(&p)));
                }
            }
        }
        assert_eq!(restored.to_bytes(), bytes);
    }
}

#[test]
fn bytes_that_are_no_tree_are_rejected() {
    assert!(Contree::<u32>::from_bytes(&vec![]).is_none());
    let tree = Contree::<u32>::new(16, 4).ok().unwrap();
    let bytes = tree.to_bytes();
    let mut cut = bytes.clone();
    cut.pop();
    assert!(Contree::<u32>::from_bytes(&cut).is_none());
    let mut longer = bytes.clone();
    longer.push(1);
    assert!(Contree::<u32>::from_bytes(&longer).is_none());
    let mut wrong_size = bytes.clone();
    wrong_size[1] = 17;
    assert!(Contree::<u32>::from_bytes(&wrong_size).is_none());
    let mut wrong_tag = bytes.clone();
    wrong_tag[17] = 9;
    assert!(Contree::<u32>::from_bytes(&wrong_tag).is_none());
}
