//! The data of the streaming cache: flat buffers that mirror a part of a tree, and the
//! records of which node and which brick each slot of the buffers holds.
use vstd::prelude::*;
use crate::slot_map::SlotMap;
use crate::types::PaletteIndexValues;

verus! {

/// The number of bricks whose "used" flags one element of the usage buffer holds. The
/// lowest bit of an element is the "used" flag of a node.
pub const BRICKS_PER_USAGE_ELEMENT: usize = 31;

/// The descriptor of a child that is not in the cache.
pub const ABSENT: u32 = 0xFFFF_FFFF;

/// The bit that marks the descriptor of a child as a solid value, held in the descriptor
/// itself, rather than the index of a brick.
pub const SOLID_TAG: u32 = 0x8000_0000;

/// The cursor of the scan for a node slot to give out: the slot of a node and one of the
/// children of that node.
#[derive(Debug, Clone, Copy)]
pub struct VictimPointer {
    /// The number of node slots of the cache.
    pub max_meta_len: usize,
    /// The number of times the scan has gone through all slots.
    pub loop_count: usize,
    /// The number of slots that were given out for the first time.
    pub stored_items: usize,
    /// The slot of the node that the cursor is at.
    pub meta_index: usize,
    /// The child of that node that the cursor is at.
    pub child: usize,
}

/// The owner of a brick slot.
#[derive(Debug, Clone, Copy, PartialEq, Eq, Structural)]
pub enum BrickOwnedBy {
    /// No node owns the slot.
    NotOwned,
    /// The slot holds the brick of the given sectant of the node with the given key.
    NodeAsChild(u32, u8),
}

/// One change of the brick buffer: new data for a slot, or the removal of what it held.
#[derive(Debug)]
pub struct BrickUpdate<'a> {
    /// The slot of the brick.
    pub brick_index: usize,
    /// The voxels to write into the slot; none where the slot was given up.
    pub data: Option<&'a Vec<PaletteIndexValues>>,
}

/// What changed in the cache, so that no more than that needs to be written to the device.
#[derive(Debug)]
pub struct CacheUpdatePackage<'a> {
    /// The brick slots that changed.
    pub brick_updates: Vec<BrickUpdate<'a>>,
    /// The part of the usage buffer that changed: from `start` up to, not including, `end`.
    pub modified_usage_range: (usize, usize),
    /// The node slots that changed.
    pub modified_nodes: Vec<usize>,
}

/// The flat buffers of the cache.
#[derive(Debug)]
pub struct BoxTreeRenderData {
    /// The "used" flags: the lowest bit of element `i` for the node in slot `i`, and bit
    /// `1 + b % 31` of element `b / 31` for the brick in slot `b`.
    pub used_bits: Vec<u32>,
    /// The kinds of the nodes, eight nodes to an element: bit `i % 8` of element `i / 8`
    /// tells that the node in slot `i` is a leaf, bit `8 + i % 8` that it is a uniform leaf.
    pub node_metadata: Vec<u32>,
    /// The descriptors of the children, sixty-four for each node slot.
    pub node_children: Vec<u32>,
    /// The occupancy bitmaps of the nodes, the low half and the high half for each node slot.
    pub node_ocbits: Vec<u32>,
}

/// The streaming cache: the buffers, and which node and which brick is in which slot.
pub struct BoxTreeGPUDataHandler {
    /// The buffers.
    pub render_data: BoxTreeRenderData,
    /// The cursor of the scan for node slots.
    pub victim_node: VictimPointer,
    /// The cursor of the scan for brick slots.
    pub victim_brick: usize,
    /// The keys of the nodes of the tree, paired with the slots that mirror them.
    pub node_key_vs_meta_index: SlotMap,
    /// The owners of the bricks, as numbers, paired with the slots of the bricks.
    pub brick_ownership: SlotMap,
}

} // verus!
