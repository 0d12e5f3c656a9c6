//! The data model: colors, user data, entries, palette indices, bricks and nodes.
use vstd::prelude::*;

verus! {

/// Errors during the usage or the creation of a tree.
#[derive(Debug)]
pub enum ContreeError {
    /// The requested edge length of the tree does not fit its brick dimension.
    InvalidSize(u32),
    /// The requested brick dimension is not a supported power of two.
    InvalidBrickDimension(u32),
    /// The tree can not take the requested structure; the text says why.
    InvalidStructure(String),
    /// A position outside of the tree was given.
    InvalidPosition { x: u32, y: u32, z: u32 },
}

/// Color properties of a voxel.
#[derive(Debug, Clone, Copy, PartialEq, Eq, Hash, Structural)]
pub struct Albedo {
    pub r: u8,
    pub g: u8,
    pub b: u8,
    pub a: u8,
}

/// What user data stored in the tree has to offer.
pub trait VoxelData: Sized {
    /// The value counts as no data at all.
    spec fn empty(&self) -> bool;

    /// Tells whether the value counts as no data at all.
    fn is_empty(&self) -> (r: bool)
        ensures
            r == self.empty(),
    ;

    /// Tells whether the two values are the same.
    fn is_same(&self, other: &Self) -> (r: bool)
        ensures
            r == (*self == *other),
    ;

    /// A copy of the value.
    fn duplicate(&self) -> (r: Self)
        ensures
            r == *self,
    ;

    /// The number that stands for the value where the value is written down.
    spec fn number(&self) -> u64;

    /// The value that a number stands for, if it stands for one.
    spec fn of_number(number: u64) -> Option<Self>;

    /// The number that stands for the value.
    fn to_number(&self) -> (r: u64)
        ensures
            r == self.number(),
    ;

    /// The value that the number stands for, if it stands for one.
    fn from_number(number: u64) -> (r: Option<Self>)
        ensures
            r == Self::of_number(number),
    ;

    /// The number of a value stands for that value.
    proof fn lemma_number_round_trip(&self)
        ensures
            Self::of_number(self.number()) == Some(*self),
    ;
}

impl VoxelData for u32 {
    open spec fn empty(&self) -> bool {
        *self == 0
    }

    fn is_empty(&self) -> (r: bool) {
        *self == 0
    }

    fn is_same(&self, other: &Self) -> (r: bool) {
        *self == *other
    }

    fn duplicate(&self) -> (r: Self) {
        *self
    }

    open spec fn number(&self) -> u64 {
        *self as u64
    }

    open spec fn of_number(number: u64) -> Option<Self> {
        if number <= u32::MAX {
            Some(number as u32)
        } else {
            None
        }
    }

    fn to_number(&self) -> (r: u64) {
        *self as u64
    }

    fn from_number(number: u64) -> (r: Option<Self>) {
        if number <= 0xFFFF_FFFF {
            Some(number as u32)
        } else {
            None
        }
    }

    proof fn lemma_number_round_trip(&self) {
    }
}

impl VoxelData for Albedo {
    open spec fn empty(&self) -> bool {
        self.a == 0
    }

    fn is_empty(&self) -> (r: bool) {
        self.a == 0
    }

    fn is_same(&self, other: &Self) -> (r: bool) {
        *self == *other
    }

    fn duplicate(&self) -> (r: Self) {
        *self
    }

    open spec fn number(&self) -> u64 {
        (self.r * 0x100_0000 + self.g * 0x1_0000 + self.b * 0x100 + self.a) as u64
    }

    open spec fn of_number(number: u64) -> Option<Self> {
        if number <= u32::MAX {
            Some(
                Albedo {
                    r: (number / 0x100_0000) as u8,
                    g: ((number / 0x1_0000) % 0x100) as u8,
                    b: ((number / 0x100) % 0x100) as u8,
                    a: (number % 0x100) as u8,
                },
            )
        } else {
            None
        }
    }

    fn to_number(&self) -> (r: u64) {
        (self.r as u64) * 0x100_0000 + (self.g as u64) * 0x1_0000 + (self.b as u64) * 0x100 + (
        self.a as u64)
    }

    fn from_number(number: u64) -> (r: Option<Self>) {
        if number <= 0xFFFF_FFFF {
            Some(
                Albedo {
                    r: (number / 0x100_0000) as u8,
                    g: ((number / 0x1_0000) % 0x100) as u8,
                    b: ((number / 0x100) % 0x100) as u8,
                    a: (number % 0x100) as u8,
                },
            )
        } else {
            None
        }
    }

    proof fn lemma_number_round_trip(&self) {
    }
}

/// What a position of the tree holds: nothing, a color, user data, or both.
#[derive(Debug)]
pub enum ContreeEntry<'a, T: VoxelData> {
    Empty,
    Visual(&'a Albedo),
    Informative(&'a T),
    Complex(&'a Albedo, &'a T),
}

/// A color palette index in the low sixteen bits and a data palette index in the high
/// sixteen bits.
pub type PaletteIndexValues = u32;

/// The palette index that stands for "no entry", in either half.
pub const NO_INDEX: u32 = 0xFFFF;

/// The palette index value with no color and no data.
pub const EMPTY_MARKER: u32 = 0xFFFF_FFFF;

/// The content of one spatial cell at the leaf resolution.
#[derive(Debug)]
pub enum ChunkData {
    /// The cell holds nothing.
    Empty,
    /// One value fills the whole cell.
    Solid(PaletteIndexValues),
    /// A dense matrix of values, one for each voxel of the brick.
    Parted(Vec<PaletteIndexValues>),
}

/// The content of a node.
#[derive(Debug)]
pub enum VoxelContent {
    /// The node is empty.
    Nothing,
    /// The node is divided into children; bit `i` tells that the subtree in sectant `i`
    /// holds something.
    Internal(u64),
    /// One brick for each sectant.
    Leaf(Vec<ChunkData>),
    /// One brick that fills the whole node.
    UniformLeaf(ChunkData),
}

/// The children descriptor of a node.
#[derive(Debug, Clone, Copy)]
pub enum VoxelChildren {
    /// The node has no children.
    NoChildren,
    /// The keys of the children, by sectant.
    Children([u32; 64]),
    /// Which sectants of a leaf hold something.
    OccupancyBitmap(u64),
}

} // verus!
