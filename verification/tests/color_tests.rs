use contree::types::{Albedo, ContreeEntry, VoxelData};

#[test]
fn colors_are_built_component_by_component() {
    let color = Albedo::default().with_red(1).with_green(2).with_blue(3).with_alpha(4);
    assert_eq!(color, Albedo { r: 1, g: 2, b: 3, a: 4 });
    assert!(!color.is_transparent());
    assert!(color.with_alpha(0).is_transparent());
    assert!(Albedo::zero().is_zero());
    assert!(!color.is_zero());
    assert_eq!(Albedo::from(0x01020304), color);
    assert_eq!(color.to_u32(), 0x01020304);
    assert_eq!(Albedo::from(0xFF00FF80), Albedo { r: 255, g: 0, b: 255, a: 128 });
    assert_eq!(color + color, Albedo { r: 2, g: 4, b: 6, a: 8 });
}

#[test]
fn entries_tell_what_they_hold() {
    let red = Albedo { r: 255, g: 0, b: 0, a: 255 };
    let clear = Albedo { r: 255, g: 0, b: 0, a: 0 };
    let seven: u32 = 7;
    let zero: u32 = 0;
    let empty: ContreeEntry<u32> = ContreeEntry::Empty;
    assert!(empty.is_none());
    assert!(empty.albedo().is_none());
    assert!(empty.data().is_none());
    let visual: ContreeEntry<u32> = (&red).into();
    assert!(visual.is_some());
    assert_eq!(visual.albedo(), Some(&red));
    assert!(visual.data().is_none());
    let transparent: ContreeEntry<u32> = ContreeEntry::Visual(&clear);
    assert!(transparent.is_none());
    let informative: ContreeEntry<u32> = ContreeEntry::Informative(&seven);
    assert!(informative.is_some());
    assert_eq!(informative.data(), Some(&seven));
    assert!(informative.albedo().is_none());
    assert!(ContreeEntry::Informative(&zero).is_none());
    let complex: ContreeEntry<u32> = (&red, &seven).into();
    assert!(complex.is_some());
    assert_eq!(complex.albedo(), Some(&red));
    assert_eq!(complex.data(), Some(&seven));
    assert!(ContreeEntry::Complex(&clear, &zero).is_none());
    assert!(ContreeEntry::Complex(&clear, &seven).is_some());
    assert!(ContreeEntry::Complex(&red, &zero).is_some());
    assert!(seven.is_same(&7));
    assert_eq!(seven.to_number(), 7);
    assert_eq!(<u32 as VoxelData>::from_number(1 << 40), None);
}
