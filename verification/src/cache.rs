//! The streaming cache: mirrors nodes and bricks of a tree into the slots of flat buffers,
//! and gives the slots of what was not used to what is asked for.
use vstd::prelude::*;
use crate::cache_types::{
    BoxTreeGPUDataHandler, BoxTreeRenderData, BrickOwnedBy, BrickUpdate, CacheUpdatePackage,
    VictimPointer, ABSENT, BRICKS_PER_USAGE_ELEMENT, SOLID_TAG,
};
use crate::slot_map::SlotMap;
use crate::tree::Contree;
use crate::types::{ChunkData, PaletteIndexValues, VoxelContent, VoxelData, EMPTY_MARKER};
use crate::victim::{is_leaf_slot, is_uniform_slot, lemma_lowest_bit, node_used};

verus! {

/// The "used" flag of the brick in the slot is set.
pub open spec fn brick_used(used_bits: Seq<u32>, brick_index: int) -> bool {
    used_bits[brick_index / 31] & (1u32 << ((1 + brick_index % 31) as u32)) != 0
}

/// The number that stands for the owner of a brick: the key of the node and the sectant.
pub open spec fn owner_code(key: int, sectant: int) -> int {
    key * 64 + sectant
}

/// The number of brick slots among the first `n` whose "used" flag is set.
pub open spec fn bricks_used_count(used_bits: Seq<u32>, n: int) -> int
    decreases n,
{
    if n <= 0 {
        0
    } else {
        bricks_used_count(used_bits, n - 1) + (if brick_used(used_bits, n - 1) {
            1int
        } else {
            0int
        })
    }
}

/// The count of the "used" flags of bricks is not negative.
pub proof fn lemma_bricks_used_count_bounds(used_bits: Seq<u32>, n: int)
    ensures
        0 <= bricks_used_count(used_bits, n),
    decreases n,
{
    if n > 0 {
        lemma_bricks_used_count_bounds(used_bits, n - 1);
    }
}

/// Clearing the "used" flag of a brick lowers the count of the flags by one.
pub proof fn lemma_bricks_used_count_cleared(before: Seq<u32>, after: Seq<u32>, brick: int, n: int)
    requires
        0 <= brick < n,
        brick_used(before, brick),
        !brick_used(after, brick),
        forall|other: int|
            0 <= other < n && other != brick ==> brick_used(after, other) == brick_used(
                before,
                other,
            ),
    ensures
        bricks_used_count(after, n) == bricks_used_count(before, n) - 1,
    decreases n,
{
    if n - 1 == brick {
        lemma_bricks_used_count_same(before, after, n - 1);
    } else {
        lemma_bricks_used_count_cleared(before, after, brick, n - 1);
    }
}

/// The count of the "used" flags of bricks depends on the flags of the first `n` only.
pub proof fn lemma_bricks_used_count_same(before: Seq<u32>, after: Seq<u32>, n: int)
    requires
        forall|other: int| 0 <= other < n ==> brick_used(after, other) == brick_used(before, other),
    ensures
        bricks_used_count(after, n) == bricks_used_count(before, n),
    decreases n,
{
    if n > 0 {
        lemma_bricks_used_count_same(before, after, n - 1);
    }
}

/// A bit set or cleared in a word leaves all other bits of the word as they were.
pub proof fn lemma_bit_of_word(word: u32, bit: u32, other: u32)
    requires
        bit < 32,
        other < 32,
    ensures
        (word | (1u32 << bit)) & (1u32 << other) == (if bit == other {
            1u32 << other
        } else {
            word & (1u32 << other)
        }),
        (word & !(1u32 << bit)) & (1u32 << other) == (if bit == other {
            0u32
        } else {
            word & (1u32 << other)
        }),
        (1u32 << other) != 0,
{
    assert((word | (1u32 << bit)) & (1u32 << other) == (if bit == other {
        1u32 << other
    } else {
        word & (1u32 << other)
    })) by (bit_vector)
        requires
            bit < 32,
            other < 32,
    ;
    assert((word & !(1u32 << bit)) & (1u32 << other) == (if bit == other {
        0u32
    } else {
        word & (1u32 << other)
    })) by (bit_vector)
        requires
            bit < 32,
            other < 32,
    ;
    assert((1u32 << other) != 0) by (bit_vector)
        requires
            other < 32,
    ;
}

/// The "used" flags of two bricks are different bits, or bits of different words.
pub proof fn lemma_brick_flag_places(first: int, second: int)
    requires
        0 <= first,
        0 <= second,
        first != second,
    ensures
        first / 31 != second / 31 || first % 31 != second % 31,
{
}

/// The number of steps that a scan over `count` slots takes from the cursor to the slot.
pub open spec fn scan_offset(cursor: int, slot: int, count: int) -> int {
    if slot >= cursor {
        slot - cursor
    } else {
        slot + count - cursor
    }
}

/// A scan that started at `start`, stands at `cursor` and has or has not gone round the end
/// of the slots, has passed the slot.
pub open spec fn scan_passed(start: int, cursor: int, wrapped: bool, slot: int) -> bool {
    if wrapped {
        slot >= start || slot < cursor
    } else {
        start <= slot < cursor
    }
}

impl BoxTreeGPUDataHandler {
    /// The number of node slots.
    pub open spec fn node_capacity(&self) -> int {
        self.victim_node.max_meta_len as int
    }

    /// The number of brick slots.
    pub open spec fn brick_capacity(&self) -> int {
        self.render_data.used_bits.len() * 31
    }

    /// The invariant of the cache: the buffers fit the number of slots, the cursors point
    /// into them, the pairs of node keys and node slots and the pairs of brick owners and
    /// brick slots are one-to-one, and the first node slot is that of the root or free.
    pub open spec fn wf(&self) -> bool {
        &&& self.victim_node.wf()
        &&& self.render_data.wf_for(self.node_capacity())
        &&& self.node_key_vs_meta_index.wf()
        &&& self.node_key_vs_meta_index.capacity() == self.node_capacity()
        &&& self.brick_ownership.wf()
        &&& self.brick_ownership.capacity() == self.brick_capacity()
        &&& self.victim_brick < self.brick_capacity()
        &&& (self.node_key_vs_meta_index.key_of(0) is None
            || self.node_key_vs_meta_index.key_of(0) == Some(0u64))
        &&& self.node_capacity() <= 0xFFFF_FFFF
        &&& self.brick_capacity() <= 0x7FFF_FFFF
        &&& forall|slot: int|
            self.victim_node.stored_items <= slot < self.node_capacity() ==> (
            #[trigger] self.node_key_vs_meta_index.key_of(slot)) is None
    }

    /// In a well formed cache no two nodes share a slot and no node has two slots, and no
    /// two bricks share a slot and no brick has two slots.
    pub proof fn lemma_pairs_one_to_one(
        &self,
        first_key: u64,
        second_key: u64,
        first_slot: int,
        second_slot: int,
    )
        requires
            self.wf(),
        ensures
            self.node_key_vs_meta_index.slot_of(first_key) is Some
                && self.node_key_vs_meta_index.slot_of(first_key)
                == self.node_key_vs_meta_index.slot_of(second_key) ==> first_key == second_key,
            self.node_key_vs_meta_index.key_of(first_slot) is Some
                && self.node_key_vs_meta_index.key_of(first_slot)
                == self.node_key_vs_meta_index.key_of(second_slot) ==> first_slot == second_slot,
            self.brick_ownership.slot_of(first_key) is Some && self.brick_ownership.slot_of(
                first_key,
            ) == self.brick_ownership.slot_of(second_key) ==> first_key == second_key,
            self.brick_ownership.key_of(first_slot) is Some && self.brick_ownership.key_of(
                first_slot,
            ) == self.brick_ownership.key_of(second_slot) ==> first_slot == second_slot,
    {
        self.node_key_vs_meta_index.lemma_one_to_one(first_key, second_key, first_slot,
            second_slot);
        self.brick_ownership.lemma_one_to_one(first_key, second_key, first_slot, second_slot);
    }

    /// The owner of the brick in the slot.
    pub open spec fn owner_of(&self, brick_index: int) -> BrickOwnedBy {
        match self.brick_ownership.key_of(brick_index) {
            Some(code) => BrickOwnedBy::NodeAsChild((code / 64) as u32, (code % 64) as u8),
            None => BrickOwnedBy::NotOwned,
        }
    }

    /// The owner of the brick in the slot.
    pub fn owner_of_brick(&self, brick_index: usize) -> (r: BrickOwnedBy)
        requires
            self.wf(),
        ensures
            r == self.owner_of(brick_index as int),
    {
        match self.brick_ownership.get_by_right(brick_index) {
            Some(code) => BrickOwnedBy::NodeAsChild((code / 64) as u32, (code % 64) as u8),
            None => BrickOwnedBy::NotOwned,
        }
    }

    /// A cache of the given number of node slots and of thirty-one brick slots for each
    /// element of the usage buffer, with nothing in it. The usage buffer is as long as the
    /// larger of the two numbers given. The buffer of the children, of sixty-four
    /// descriptors for each node slot, is to fit in memory, and the number of a brick slot
    /// in thirty-one bits.
    pub fn new(node_slots: usize, usage_elements: usize) -> (cache: Self)
        requires
            1 <= node_slots,
            64 * node_slots <= usize::MAX,
            31 * node_slots <= 0x7FFF_FFFF,
            31 * usage_elements <= 0x7FFF_FFFF,
        ensures
            cache.wf(),
            cache.node_capacity() == node_slots,
            cache.brick_capacity() == 31 * (if usage_elements > node_slots {
                usage_elements
            } else {
                node_slots
            }),
            cache.victim_node.stored_items == 1,
            forall|slot: int| cache.node_key_vs_meta_index.key_of(slot) is None,
            forall|key: u64| cache.node_key_vs_meta_index.slot_of(key) is None,
            forall|brick: int| cache.brick_ownership.key_of(brick) is None,
    {
        let usage_len: usize = if usage_elements > node_slots {
            usage_elements
        } else {
            node_slots
        };
        let used_bits: Vec<u32> = filled(0, usage_len);
        let node_metadata: Vec<u32> = filled(0, node_slots / 8 + 1);
        let node_children: Vec<u32> = filled(ABSENT, 64 * node_slots);
        let node_ocbits: Vec<u32> = filled(0, 2 * node_slots);
        let cache = BoxTreeGPUDataHandler {
            render_data: BoxTreeRenderData { used_bits, node_metadata, node_children, node_ocbits },
            victim_node: VictimPointer::new(node_slots),
            victim_brick: 0,
            node_key_vs_meta_index: SlotMap::new(node_slots),
            brick_ownership: SlotMap::new(31 * usage_len),
        };
        cache
    }

    /// Tells whether the "used" flag of the brick in the slot is set.
    pub fn get_brick_used(used_bits: &Vec<u32>, brick_index: usize) -> (r: bool)
        requires
            brick_index / 31 < used_bits.len(),
        ensures
            r == brick_used(used_bits@, brick_index as int),
    {
        0 != (used_bits[brick_index / 31] & (0x01u32 << ((1 + (brick_index % 31)) as u32)))
    }

    /// Sets or clears the "used" flag of the brick in the slot. All other flags stay.
    pub fn set_brick_used(used_bits: &mut Vec<u32>, brick_index: usize, used: bool)
        requires
            brick_index / 31 < old(used_bits).len(),
        ensures
            final(used_bits).len() == old(used_bits).len(),
            brick_used(final(used_bits)@, brick_index as int) == used,
            forall|other: int|
                0 <= other < old(used_bits).len() * 31 && other != brick_index ==> brick_used(
                    final(used_bits)@,
                    other,
                ) == brick_used(old(used_bits)@, other),
            forall|slot: int|
                0 <= slot < old(used_bits).len() ==> node_used(final(used_bits)@, slot)
                    == node_used(old(used_bits)@, slot),
            forall|slot: int|
                0 <= slot < old(used_bits).len() && slot != brick_index / 31
                    ==> final(used_bits)[slot] == old(used_bits)[slot],
    {
        let word_index: usize = brick_index / 31;
        let bit: u32 = (1 + (brick_index % 31)) as u32;
        let word: u32 = used_bits[word_index];
        let changed: u32 = if used {
            word | (0x01u32 << bit)
        } else {
            word & !(0x01u32 << bit)
        };
        used_bits[word_index] = changed;
        proof {
            lemma_bit_of_word(word, bit, bit);
            lemma_bit_of_word(word, bit, 0);
            assert(1u32 << 0u32 == 1u32) by (bit_vector);
            assert forall|other: int|
                0 <= other < old(used_bits).len() * 31 && other != brick_index implies brick_used(
                used_bits@,
                other,
            ) == brick_used(old(used_bits)@, other) by {
                lemma_brick_flag_places(other, brick_index as int);
                if other / 31 == word_index {
                    lemma_bit_of_word(word, bit, (1 + other % 31) as u32);
                }
            }
        }
    }

    /// Records the kind of the node in the metadata of its slot: whether it is a leaf, and
    /// whether it is a uniform leaf. The records of all other slots stay.
    pub fn inject_node_properties<T: VoxelData>(
        meta_array: &mut Vec<u32>,
        node_index: usize,
        tree: &Contree<T>,
        node_key: usize,
    )
        requires
            node_index / 8 < old(meta_array).len(),
            tree.nodes.valid(node_key as int),
        ensures
            final(meta_array).len() == old(meta_array).len(),
            is_leaf_slot(final(meta_array)@, node_index as int) == tree.nodes.item(
                node_key as int,
            ).is_leaf_kind(),
            is_uniform_slot(final(meta_array)@, node_index as int) == (tree.nodes.item(
                node_key as int,
            ) is UniformLeaf),
            forall|other: int|
                0 <= other < old(meta_array).len() * 8 && other != node_index ==> is_leaf_slot(
                    final(meta_array)@,
                    other,
                ) == is_leaf_slot(old(meta_array)@, other) && is_uniform_slot(
                    final(meta_array)@,
                    other,
                ) == is_uniform_slot(old(meta_array)@, other),
    {
        let word_index: usize = node_index / 8;
        let leaf_bit: u32 = (node_index % 8) as u32;
        let uniform_bit: u32 = (8 + (node_index % 8)) as u32;
        let word: u32 = meta_array[word_index];
        let (is_leaf, is_uniform): (bool, bool) = match tree.nodes.get(node_key) {
            VoxelContent::Internal(_) => (false, false),
            VoxelContent::Nothing => (false, false),
            VoxelContent::Leaf(_) => (true, false),
            VoxelContent::UniformLeaf(_) => (true, true),
        };
        let with_leaf: u32 = if is_leaf {
            word | (0x01u32 << leaf_bit)
        } else {
            word & !(0x01u32 << leaf_bit)
        };
        let with_both: u32 = if is_uniform {
            with_leaf | (0x01u32 << uniform_bit)
        } else {
            with_leaf & !(0x01u32 << uniform_bit)
        };
        meta_array[word_index] = with_both;
        proof {
            lemma_bit_of_word(word, leaf_bit, leaf_bit);
            lemma_bit_of_word(word, leaf_bit, uniform_bit);
            lemma_bit_of_word(with_leaf, uniform_bit, leaf_bit);
            lemma_bit_of_word(with_leaf, uniform_bit, uniform_bit);
            assert forall|other: int|
                0 <= other < old(meta_array).len() * 8 && other != node_index implies is_leaf_slot(
                meta_array@,
                other,
            ) == is_leaf_slot(old(meta_array)@, other) && is_uniform_slot(meta_array@, other)
                == is_uniform_slot(old(meta_array)@, other) by {
                if other / 8 == word_index {
                    lemma_bit_of_word(word, leaf_bit, (other % 8) as u32);
                    lemma_bit_of_word(word, leaf_bit, (8 + other % 8) as u32);
                    lemma_bit_of_word(with_leaf, uniform_bit, (other % 8) as u32);
                    lemma_bit_of_word(with_leaf, uniform_bit, (8 + other % 8) as u32);
                }
            }
        }
    }

    /// The index, in the buffer of the children, of the descriptor that is erased when the
    /// given child of the node in the given slot is given up: that of the child, or, for a
    /// uniform leaf, that of its only brick.
    pub open spec fn erased_place(&self, meta_index: int, child_sectant: int) -> int {
        if is_leaf_slot(self.render_data.node_metadata@, meta_index) && is_uniform_slot(
            self.render_data.node_metadata@,
            meta_index,
        ) {
            meta_index * 64
        } else {
            meta_index * 64 + child_sectant
        }
    }

    /// The brick slot that is released when the given child of the node in the given slot is
    /// given up: the slot that the descriptor of the child names, if the node is a leaf and
    /// the descriptor names a brick slot.
    pub open spec fn released_brick(&self, meta_index: int, child_sectant: int) -> Option<int> {
        let descriptor = self.render_data.descriptor(meta_index, child_sectant);
        if is_leaf_slot(self.render_data.node_metadata@, meta_index) && descriptor != ABSENT
            && descriptor < SOLID_TAG && descriptor < self.brick_capacity() {
            Some(descriptor as int)
        } else {
            None
        }
    }

    /// Gives up the given child of the node in the given slot: its descriptor is set to
    /// absent. If the node is a leaf, the brick slot that the descriptor named is released:
    /// it has no owner afterwards, and its "used" flag is cleared. The kind of the node is
    /// taken from the metadata of its slot.
    /// Returns the brick updates and the slots of the nodes that changed: the slot of the node
    /// and, where the child is a node, the slot of the child.
    pub fn erase_node_child<'a>(&mut self, meta_index: usize, child_sectant: usize) -> (r: (
        Vec<BrickUpdate<'a>>,
        Vec<usize>,
    ))
        requires
            old(self).wf(),
            meta_index < old(self).node_capacity(),
            child_sectant < 64,
        ensures
            final(self).wf(),
            final(self).victim_node == old(self).victim_node,
            final(self).victim_brick == old(self).victim_brick,
            final(self).node_key_vs_meta_index == old(self).node_key_vs_meta_index,
            final(self).render_data.node_metadata@ == old(self).render_data.node_metadata@,
            final(self).render_data.node_ocbits@ == old(self).render_data.node_ocbits@,
            final(self).render_data.used_bits.len() == old(self).render_data.used_bits.len(),
            final(self).render_data.node_children@ == old(self).render_data.node_children@.update(
                old(self).erased_place(meta_index as int, child_sectant as int),
                ABSENT,
            ),
            forall|slot: int|
                0 <= slot < old(self).render_data.used_bits.len() ==> node_used(
                    final(self).render_data.used_bits@,
                    slot,
                ) == node_used(old(self).render_data.used_bits@, slot),
            r.1.len() >= 1 && r.1[0] == meta_index,
            match old(self).released_brick(meta_index as int, child_sectant as int) {
                Some(brick) => {
                    &&& r.0.len() == 1
                    &&& r.0[0].brick_index == brick
                    &&& r.0[0].data is None
                    &&& final(self).brick_ownership.key_of(brick) is None
                    &&& !brick_used(final(self).render_data.used_bits@, brick)
                    &&& forall|other: int|
                        0 <= other < old(self).brick_capacity() && other != brick
                            ==> final(self).brick_ownership.key_of(other)
                            == old(self).brick_ownership.key_of(other)
                            && brick_used(final(self).render_data.used_bits@, other)
                            == brick_used(old(self).render_data.used_bits@, other)
                },
                None => {
                    &&& r.0.len() == 0
                    &&& final(self).brick_ownership == old(self).brick_ownership
                    &&& final(self).render_data.used_bits@ == old(self).render_data.used_bits@
                },
            },
            !is_leaf_slot(old(self).render_data.node_metadata@, meta_index as int) ==> r.1.len()
                == 2 && r.1[1] == old(self).render_data.descriptor(
                meta_index as int,
                child_sectant as int,
            ),
            is_leaf_slot(old(self).render_data.node_metadata@, meta_index as int) ==> r.1.len()
                == 1,
    {
        let ghost capacity = self.node_capacity();
        let mut modified_bricks: Vec<BrickUpdate<'a>> = Vec::new();
        let mut modified_nodes: Vec<usize> = Vec::new();
        modified_nodes.push(meta_index);
        // erase the connection to the parent
        let parent_first_child_index: usize = meta_index * 64;
        let parent_children_offset: usize = parent_first_child_index + child_sectant;
        let child_descriptor: u32 = self.render_data.node_children[parent_children_offset];
        let meta_word: u32 = self.render_data.node_metadata[meta_index / 8];
        let is_leaf: bool = 0 != (meta_word & (0x01u32 << ((meta_index % 8) as u32)));
        let is_uniform: bool = 0 != (meta_word & (0x01u32 << ((8 + (meta_index % 8)) as u32)));
        if is_leaf && is_uniform {
            self.render_data.node_children[parent_first_child_index] = ABSENT;
        } else {
            self.render_data.node_children[parent_children_offset] = ABSENT;
        }
        proof {
            assert forall|slot: int, child: int|
                0 <= slot < capacity && 0 <= child < 64 && #[trigger] self.render_data.candidate(
                    slot,
                    child,
                ) implies 0 < self.render_data.descriptor(slot, child) < capacity by {
                assert(old(self).render_data.candidate(slot, child));
            }
        }
        let ghost erased = self.render_data;
        if !is_leaf {
            modified_nodes.push(child_descriptor as usize);
        } else {
            let brick_index: usize = child_descriptor as usize;
            if child_descriptor != ABSENT && child_descriptor < SOLID_TAG && brick_index
                / 31 < self.render_data.used_bits.len() {
                self.brick_ownership.remove_by_right(brick_index);
                Self::set_brick_used(&mut self.render_data.used_bits, brick_index, false);
                modified_bricks.push(BrickUpdate { brick_index, data: None });
            }
        }
        proof {
            erased.lemma_same_structure_wf(&self.render_data, capacity);
        }
        // return with the updated bricks and nodes
        (modified_bricks, modified_nodes)
    }

    /// The descriptors outside of the given node slot are those of the other cache, but for
    /// the one at the given place, which is absent.
    pub open spec fn descriptors_kept(&self, before: &Self, slot: int, erased: int) -> bool {
        &&& self.render_data.node_children.len() == before.render_data.node_children.len()
        &&& forall|place: int|
            0 <= place < before.render_data.node_children.len() && !(slot * 64 <= place < slot
                * 64 + 64) ==> self.render_data.node_children[place] == (if place == erased {
                ABSENT
            } else {
                before.render_data.node_children[place]
            })
    }

    /// The cache differs from the other in the descriptors of one node slot at most.
    pub open spec fn same_but_descriptors(&self, other: &Self, slot: int) -> bool {
        &&& self.victim_node == other.victim_node
        &&& self.victim_brick == other.victim_brick
        &&& self.node_key_vs_meta_index == other.node_key_vs_meta_index
        &&& self.brick_ownership == other.brick_ownership
        &&& self.render_data.used_bits@ == other.render_data.used_bits@
        &&& self.render_data.node_metadata@ == other.render_data.node_metadata@
        &&& self.render_data.node_ocbits@ == other.render_data.node_ocbits@
        &&& self.render_data.node_children.len() == other.render_data.node_children.len()
        &&& forall|place: int|
            0 <= place < self.render_data.node_children.len() && !(slot * 64 <= place < slot * 64
                + 64) ==> self.render_data.node_children[place]
                == other.render_data.node_children[place]
    }

    /// Writes one descriptor of a node slot.
    pub fn set_descriptor(&mut self, slot: usize, sectant: usize, value: u32)
        requires
            old(self).wf(),
            slot < old(self).node_capacity(),
            sectant < 64,
            is_leaf_slot(old(self).render_data.node_metadata@, slot as int) || value == ABSENT
                || 0 < value < old(self).node_capacity(),
        ensures
            final(self).wf(),
            final(self).same_but_descriptors(old(self), slot as int),
            forall|other: int|
                0 <= other < 64 ==> final(self).render_data.descriptor(slot as int, other) == (
                if other == sectant {
                    value
                } else {
                    old(self).render_data.descriptor(slot as int, other)
                }),
    {
        let ghost capacity = self.node_capacity();
        self.render_data.node_children[slot * 64 + sectant] = value;
        proof {
            assert forall|node: int, child: int|
                0 <= node < capacity && 0 <= child < 64 && #[trigger] self.render_data.candidate(
                    node,
                    child,
                ) implies 0 < self.render_data.descriptor(node, child) < capacity by {
                if node == slot && child == sectant {
                } else {
                    assert(old(self).render_data.candidate(node, child));
                }
            }
        }
    }

    /// Sets all descriptors of a node slot to absent.
    pub fn clear_descriptors(&mut self, slot: usize)
        requires
            old(self).wf(),
            slot < old(self).node_capacity(),
        ensures
            final(self).wf(),
            final(self).same_but_descriptors(old(self), slot as int),
            forall|sectant: int|
                0 <= sectant < 64 ==> final(self).render_data.descriptor(slot as int, sectant)
                    == ABSENT,
    {
        let mut sectant: usize = 0;
        while sectant < 64
            invariant
                sectant <= 64,
                self.wf(),
                slot < self.node_capacity(),
                self.same_but_descriptors(old(self), slot as int),
                forall|done: int|
                    0 <= done < sectant ==> self.render_data.descriptor(slot as int, done)
                        == ABSENT,
            decreases 64 - sectant,
        {
            self.set_descriptor(slot, sectant, ABSENT);
            sectant += 1;
        }
    }

    /// Records the kind of the node in the metadata of a slot whose descriptors are all
    /// absent, and the occupancy bitmap of the node in the two elements of the slot.
    pub fn record_node<T: VoxelData>(&mut self, slot: usize, tree: &Contree<T>, node_key: usize)
        requires
            old(self).wf(),
            tree.wf(),
            tree.nodes.valid(node_key as int),
            slot < old(self).node_capacity(),
            forall|sectant: int|
                0 <= sectant < 64 ==> old(self).render_data.descriptor(slot as int, sectant)
                    == ABSENT,
        ensures
            final(self).wf(),
            final(self).victim_node == old(self).victim_node,
            final(self).victim_brick == old(self).victim_brick,
            final(self).node_key_vs_meta_index == old(self).node_key_vs_meta_index,
            final(self).brick_ownership == old(self).brick_ownership,
            final(self).render_data.used_bits@ == old(self).render_data.used_bits@,
            final(self).render_data.node_children@ == old(self).render_data.node_children@,
            final(self).kind_recorded(slot as int, tree, node_key as int),
            forall|other: int|
                0 <= other < old(self).node_capacity() && other != slot ==> is_leaf_slot(
                    final(self).render_data.node_metadata@,
                    other,
                ) == is_leaf_slot(old(self).render_data.node_metadata@, other) && is_uniform_slot(
                    final(self).render_data.node_metadata@,
                    other,
                ) == is_uniform_slot(old(self).render_data.node_metadata@, other),
    {
        let ghost capacity = self.node_capacity();
        Self::inject_node_properties(&mut self.render_data.node_metadata, slot, tree, node_key);
        let occupied_bits: u64 = tree.stored_occupied_bits(node_key);
        assert((occupied_bits & 0x0000_0000_FFFF_FFFFu64) <= 0xFFFF_FFFFu64 && (occupied_bits
            >> 32u64) <= 0xFFFF_FFFFu64) by (bit_vector);
        self.render_data.node_ocbits[slot * 2] = (occupied_bits & 0x0000_0000_FFFF_FFFF) as u32;
        self.render_data.node_ocbits[slot * 2 + 1] = (occupied_bits >> 32) as u32;
        proof {
            assert forall|node: int, child: int|
                0 <= node < capacity && 0 <= child < 64 && #[trigger] self.render_data.candidate(
                    node,
                    child,
                ) implies 0 < self.render_data.descriptor(node, child) < capacity by {
                if node != slot {
                    assert(old(self).render_data.candidate(node, child));
                }
            }
        }
    }

    /// The metadata of the slot tells the kind of the node, and the two elements of the
    /// slot in the buffer of the occupancy bitmaps hold the two halves of the bitmap of the
    /// node.
    pub open spec fn kind_recorded<T: VoxelData>(&self, slot: int, tree: &Contree<T>,
        node_key: int) -> bool {
        &&& is_leaf_slot(self.render_data.node_metadata@, slot) == tree.nodes.item(
            node_key,
        ).is_leaf_kind()
        &&& is_uniform_slot(self.render_data.node_metadata@, slot) == (tree.nodes.item(
            node_key,
        ) is UniformLeaf)
        &&& self.render_data.node_ocbits[slot * 2] == tree.occupied_bits_of(node_key)
            & 0x0000_0000_FFFF_FFFFu64
        &&& self.render_data.node_ocbits[slot * 2 + 1] == tree.occupied_bits_of(node_key) >> 32u64
    }

    /// The descriptor that mirrors the given sectant of the node of the tree: absent for
    /// what is not in the cache; the slot of a child node that is in the cache; a solid value
    /// itself, tagged; the slot of a brick that is in the cache.
    pub open spec fn mirrored_descriptor<T: VoxelData>(
        &self,
        tree: &Contree<T>,
        node_key: int,
        sectant: int,
    ) -> u32 {
        match tree.nodes.item(node_key) {
            VoxelContent::Nothing => ABSENT,
            VoxelContent::Internal(_) => {
                let child = tree.node_children[node_key].child_key(sectant);
                if child != EMPTY_MARKER {
                    match self.node_key_vs_meta_index.slot_of(child as u64) {
                        Some(slot) => slot as u32,
                        None => ABSENT,
                    }
                } else {
                    ABSENT
                }
            },
            VoxelContent::UniformLeaf(brick) => if sectant == 0 {
                match brick {
                    ChunkData::Solid(voxel) => SOLID_TAG | voxel,
                    _ => ABSENT,
                }
            } else {
                ABSENT
            },
            VoxelContent::Leaf(bricks) => match bricks[sectant] {
                ChunkData::Solid(voxel) => SOLID_TAG | voxel,
                _ => match self.brick_ownership.slot_of(owner_code(node_key, sectant) as u64) {
                    Some(brick) => brick as u32,
                    None => ABSENT,
                },
            },
        }
    }

    /// Writes the descriptors of the children of a divided node into its slot: the slot of
    /// each child that is in the cache, absent for the others.
    pub fn mirror_children<T: VoxelData>(&mut self, slot: usize, tree: &Contree<T>, node_key: usize)
        requires
            old(self).wf(),
            tree.wf(),
            tree.nodes.valid(node_key as int),
            tree.nodes.item(node_key as int) is Internal,
            slot < old(self).node_capacity(),
        ensures
            final(self).wf(),
            final(self).same_but_descriptors(old(self), slot as int),
            forall|sectant: int|
                0 <= sectant < 64 ==> final(self).render_data.descriptor(slot as int, sectant)
                    == final(self).mirrored_descriptor(tree, node_key as int, sectant),
    {
        assert(tree.node_ok(node_key as int));
        let mut sectant: u8 = 0;
        while sectant < 64
            invariant
                sectant <= 64,
                self.wf(),
                tree.wf(),
                tree.nodes.valid(node_key as int),
                tree.nodes.item(node_key as int) is Internal,
                node_key < tree.node_children.len(),
                slot < self.node_capacity(),
                self.same_but_descriptors(old(self), slot as int),
                forall|done: int|
                    0 <= done < sectant ==> self.render_data.descriptor(slot as int, done)
                        == self.mirrored_descriptor(tree, node_key as int, done),
            decreases 64 - sectant,
        {
            assert(tree.node_ok(node_key as int));
            assert(tree.link_ok(node_key as int, sectant as int));
            let child_key: usize = tree.node_children[node_key].child(sectant);
            let descriptor: u32 = if child_key != EMPTY_MARKER as usize {
                match self.node_key_vs_meta_index.get_by_left(child_key as u64) {
                    Some(child_slot) => child_slot as u32,
                    None => ABSENT,
                }
            } else {
                ABSENT
            };
            self.set_descriptor(slot, sectant as usize, descriptor);
            sectant += 1;
        }
    }

    /// The brick slot holds the brick of the given sectant of the leaf: the brick is no solid
    /// one, and is paired with the slot.
    pub open spec fn holds_brick_of<T: VoxelData>(
        &self,
        tree: &Contree<T>,
        node_key: int,
        sectant: int,
        brick: int,
    ) -> bool {
        &&& !(tree.brick_at(node_key, sectant) matches Some(ChunkData::Solid(_)))
        &&& self.brick_ownership.slot_of(owner_code(node_key, sectant) as u64) == Some(
            brick as usize,
        )
    }

    /// The brick slot holds the brick of one of the first sectants of the leaf.
    pub open spec fn holds_brick_below<T: VoxelData>(
        &self,
        tree: &Contree<T>,
        node_key: int,
        upto: int,
        brick: int,
    ) -> bool {
        exists|sectant: int|
            0 <= sectant < upto && #[trigger] self.holds_brick_of(tree, node_key, sectant, brick)
    }

    /// One sectant more holds what the sectants before held, and what the sectant holds.
    pub proof fn lemma_holds_brick_step<T: VoxelData>(
        &self,
        tree: &Contree<T>,
        node_key: int,
        upto: int,
        brick: int,
    )
        requires
            0 <= upto,
        ensures
            self.holds_brick_below(tree, node_key, upto + 1, brick) == (self.holds_brick_below(
                tree,
                node_key,
                upto,
                brick,
            ) || self.holds_brick_of(tree, node_key, upto, brick)),
    {
        if self.holds_brick_below(tree, node_key, upto + 1, brick) {
            let s = choose|s: int|
                0 <= s < upto + 1 && #[trigger] self.holds_brick_of(tree, node_key, s, brick);
            if s < upto {
                assert(self.holds_brick_below(tree, node_key, upto, brick));
            }
        }
        if self.holds_brick_below(tree, node_key, upto, brick) {
            let s = choose|s: int|
                0 <= s < upto && #[trigger] self.holds_brick_of(tree, node_key, s, brick);
            assert(0 <= s < upto + 1 && self.holds_brick_of(tree, node_key, s, brick));
        }
        if self.holds_brick_of(tree, node_key, upto, brick) {
            assert(0 <= upto < upto + 1 && self.holds_brick_of(tree, node_key, upto, brick));
        }
    }

    /// Writes the descriptors of the bricks of a leaf into its slot: the value of a solid
    /// brick itself, tagged; the slot of a brick that is in the cache, which counts as used
    /// then; absent for the others.
    pub fn mirror_bricks<T: VoxelData>(&mut self, slot: usize, tree: &Contree<T>, node_key: usize)
        requires
            old(self).wf(),
            tree.wf(),
            tree.nodes.valid(node_key as int),
            tree.nodes.item(node_key as int) is Leaf,
            slot < old(self).node_capacity(),
            is_leaf_slot(old(self).render_data.node_metadata@, slot as int),
        ensures
            final(self).wf(),
            final(self).victim_node == old(self).victim_node,
            final(self).victim_brick == old(self).victim_brick,
            final(self).node_key_vs_meta_index == old(self).node_key_vs_meta_index,
            final(self).brick_ownership == old(self).brick_ownership,
            final(self).render_data.node_metadata@ == old(self).render_data.node_metadata@,
            final(self).render_data.node_ocbits@ == old(self).render_data.node_ocbits@,
            final(self).render_data.used_bits.len() == old(self).render_data.used_bits.len(),
            forall|other: int|
                0 <= other < old(self).render_data.used_bits.len() ==> node_used(
                    final(self).render_data.used_bits@,
                    other,
                ) == node_used(old(self).render_data.used_bits@, other),
            forall|place: int|
                0 <= place < old(self).render_data.node_children.len() && !(slot * 64 <= place
                    < slot * 64 + 64)
                        ==> final(self).render_data.node_children[place]
                        == old(self).render_data.node_children[place],
            forall|sectant: int|
                0 <= sectant < 64 ==> final(self).render_data.descriptor(slot as int, sectant)
                    == final(self).mirrored_descriptor(tree, node_key as int, sectant),
            // the bricks of the leaf that are in the cache are marked as used
            forall|brick: int|
                0 <= brick < old(self).brick_capacity() ==> #[trigger] brick_used(
                    final(self).render_data.used_bits@,
                    brick,
                ) == (brick_used(old(self).render_data.used_bits@, brick) || old(
                    self,
                ).holds_brick_below(tree, node_key as int, 64, brick)),
    {
        let ghost capacity = self.node_capacity();
        assert(tree.node_ok(node_key as int));
        let mut sectant: u8 = 0;
        while sectant < 64
            invariant
                sectant <= 64,
                self.wf(),
                tree.wf(),
                tree.nodes.valid(node_key as int),
                tree.nodes.item(node_key as int) is Leaf,
                node_key <= EMPTY_MARKER,
                slot < self.node_capacity(),
                capacity == self.node_capacity(),
                is_leaf_slot(self.render_data.node_metadata@, slot as int),
                self.victim_node == old(self).victim_node,
                self.victim_brick == old(self).victim_brick,
                self.node_key_vs_meta_index == old(self).node_key_vs_meta_index,
                self.brick_ownership == old(self).brick_ownership,
                self.render_data.node_metadata@ == old(self).render_data.node_metadata@,
                self.render_data.node_ocbits@ == old(self).render_data.node_ocbits@,
                self.render_data.used_bits.len() == old(self).render_data.used_bits.len(),
                self.render_data.node_children.len() == old(self).render_data.node_children.len(),
                forall|other: int|
                    0 <= other < old(self).render_data.used_bits.len() ==> node_used(
                        self.render_data.used_bits@,
                        other,
                    ) == node_used(old(self).render_data.used_bits@, other),
                forall|place: int|
                    0 <= place < old(self).render_data.node_children.len() && !(slot * 64 <= place
                        < slot * 64 + 64)
                            ==> self.render_data.node_children[place]
                            == old(self).render_data.node_children[place],
                forall|done: int|
                    0 <= done < sectant ==> self.render_data.descriptor(slot as int, done)
                        == self.mirrored_descriptor(tree, node_key as int, done),
                forall|brick: int|
                    0 <= brick < old(self).brick_capacity() ==> #[trigger] brick_used(
                        self.render_data.used_bits@,
                        brick,
                    ) == (brick_used(old(self).render_data.used_bits@, brick) || old(
                        self,
                    ).holds_brick_below(tree, node_key as int, sectant as int, brick)),
            decreases 64 - sectant,
        {
            assert(tree.node_ok(node_key as int));
            let ghost at_start = *self;
            let solid: Option<PaletteIndexValues> = match tree.nodes.get(node_key) {
                VoxelContent::Leaf(bricks) => match &bricks[sectant as usize] {
                    ChunkData::Solid(voxel) => Some(*voxel),
                    _ => None,
                },
                _ => None,
            };
            let descriptor: u32 = match solid {
                Some(voxel) => SOLID_TAG | voxel,
                None => {
                    let owner: u64 = (node_key as u64) * 64 + (sectant as u64);
                    match self.brick_ownership.get_by_left(owner) {
                        Some(brick_index) => {
                            let ghost before = self.render_data;
                            Self::set_brick_used(
                                &mut self.render_data.used_bits,
                                brick_index,
                                true,
                            );
                            proof {
                                before.lemma_same_structure_wf(&self.render_data, capacity);
                            }
                            brick_index as u32
                        },
                        None => ABSENT,
                    }
                },
            };
            let ghost before_set = *self;
            self.set_descriptor(slot, sectant as usize, descriptor);
            proof {
                assert forall|brick: int|
                    0 <= brick < old(self).brick_capacity() implies #[trigger] brick_used(
                    self.render_data.used_bits@,
                    brick,
                ) == (brick_used(old(self).render_data.used_bits@, brick) || old(
                    self,
                ).holds_brick_below(tree, node_key as int, sectant + 1, brick)) by {
                    old(self).lemma_holds_brick_step(tree, node_key as int, sectant as int, brick);
                    assert(brick_used(self.render_data.used_bits@, brick) == brick_used(
                        before_set.render_data.used_bits@,
                        brick,
                    ));
                }
                assert forall|done: int| 0 <= done < sectant + 1 implies self.render_data.descriptor(
                    slot as int,
                    done,
                ) == self.mirrored_descriptor(tree, node_key as int, done) by {
                    assert(self.brick_ownership == before_set.brick_ownership);
                    assert(self.mirrored_descriptor(tree, node_key as int, done)
                        == before_set.mirrored_descriptor(tree, node_key as int, done));
                    if done == sectant {
                        assert(self.render_data.descriptor(slot as int, done) == descriptor);
                        assert(descriptor == before_set.mirrored_descriptor(
                            tree,
                            node_key as int,
                            done,
                        ));
                    } else {
                        assert(self.render_data.descriptor(slot as int, done)
                            == before_set.render_data.descriptor(slot as int, done));
                        assert(before_set.render_data.descriptor(slot as int, done)
                            == at_start.render_data.descriptor(slot as int, done));
                        assert(at_start.mirrored_descriptor(tree, node_key as int, done)
                            == before_set.mirrored_descriptor(tree, node_key as int, done));
                    }
                }
            }
            sectant += 1;
        }
    }

    /// Writes the data of the given node into a slot of the cache, and pairs the key of the
    /// node with the slot. The root goes into the first slot; any other node into the slot
    /// that `first_available_node` provides. If that slot held a node, the node is evicted:
    /// the descriptor of it in the slot of its parent is set to absent. The nodes below an
    /// evicted node stay in the cache until their slots are provided in turn.
    ///
    /// The slot takes the kind, the occupancy bitmap and the descriptors of the node: see
    /// `mirrored_descriptor`.
    ///
    /// Returns the slot and what changed in the cache; or nothing, with no change but in the
    /// "used" flags of nodes, if the cache has no slot to provide.
    pub fn add_node<'a, T: VoxelData>(&mut self, tree: &'a Contree<T>,
        node_key: usize) -> (r: Option<
        (usize, CacheUpdatePackage<'a>),
    >)
        requires
            old(self).wf(),
            tree.wf(),
            tree.nodes.valid(node_key as int),
        ensures
            final(self).wf(),
            final(self).node_capacity() == old(self).node_capacity(),
            final(self).brick_capacity() == old(self).brick_capacity(),
            r is None <==> (node_key != 0 && old(self).victim_node.is_full_spec() && forall|
                slot: int,
                child: int,
            |
                0 <= slot < old(self).node_capacity() && 0 <= child < 64
                    ==> !old(self).render_data.candidate(slot, child)),
            r is None ==> {
                &&& final(self).node_key_vs_meta_index == old(self).node_key_vs_meta_index
                &&& final(self).brick_ownership == old(self).brick_ownership
                &&& final(self).render_data.same_but_node_flags(&old(self).render_data)
            },
            r matches Some((slot, package)) ==> {
                &&& slot < old(self).node_capacity()
                &&& (slot == 0) == (node_key == 0)
                &&& final(self).node_key_vs_meta_index.slot_of(node_key as u64) == Some(slot)
                &&& final(self).node_key_vs_meta_index.key_of(slot as int) == Some(node_key as u64)
                &&& final(self).kind_recorded(slot as int, tree, node_key as int)
                &&& forall|sectant: int|
                    0 <= sectant < 64 ==> final(self).render_data.descriptor(slot as int, sectant)
                        == final(self).mirrored_descriptor(tree, node_key as int, sectant)
                // the key that was paired with the slot is paired no longer; all other keys
                // keep their slots, and no brick changes
                &&& forall|other: u64|
                    other != node_key ==> final(self).node_key_vs_meta_index.slot_of(other) == (
                    if old(self).node_key_vs_meta_index.slot_of(other) == Some(slot) {
                        None
                    } else {
                        old(self).node_key_vs_meta_index.slot_of(other)
                    })
                &&& final(self).brick_ownership == old(self).brick_ownership
                &&& final(self).victim_brick == old(self).victim_brick
                &&& package.brick_updates.len() == 0
                // the bricks of a leaf that are in the cache are marked as used
                &&& tree.nodes.item(node_key as int) is Leaf ==> forall|brick: int|
                    0 <= brick < old(self).brick_capacity() && old(self).holds_brick_below(
                        tree,
                        node_key as int,
                        64,
                        brick,
                    ) ==> #[trigger] brick_used(final(self).render_data.used_bits@, brick)
                &&& forall|other: int|
                    0 <= other < old(self).node_capacity() && other != slot ==> is_leaf_slot(
                        final(self).render_data.node_metadata@,
                        other,
                    ) == is_leaf_slot(old(self).render_data.node_metadata@, other)
                        && is_uniform_slot(final(self).render_data.node_metadata@, other)
                        == is_uniform_slot(old(self).render_data.node_metadata@, other)
                &&& if node_key == 0 || !old(self).victim_node.is_full_spec() {
                    // nothing is evicted
                    &&& package.modified_nodes@ =~= seq![slot]
                    &&& package.modified_usage_range == (slot, (slot + 1) as usize)
                    &&& final(self).descriptors_kept(old(self), slot as int, -1)
                    &&& node_key != 0 ==> slot == old(self).victim_node.stored_items
                    &&& forall|other: u64|
                        other != node_key ==> final(self).node_key_vs_meta_index.slot_of(other)
                            == old(self).node_key_vs_meta_index.slot_of(other)
                    &&& node_key != 0 ==> old(self).node_key_vs_meta_index.key_of(slot as int)
                        is None
                    &&& node_key == 0 ==> final(self).victim_node == old(self).victim_node
                        && forall|other: int|
                        0 <= other < old(self).node_capacity() ==> node_used(
                            final(self).render_data.used_bits@,
                            other,
                        ) == node_used(old(self).render_data.used_bits@, other)
                } else {
                    // the node in the slot is evicted: the descriptor that named the slot, in
                    // the slot of a node that is no leaf, is set to absent
                    // the cursor stays at that descriptor
                    let parent = final(self).victim_node.meta_index;
                    let child = final(self).victim_node.child;
                    &&& old(self).render_data.candidate(parent as int, child as int)
                    &&& old(self).render_data.descriptor(parent as int, child as int) == slot
                    &&& package.modified_nodes@ =~= seq![parent, slot]
                    &&& final(self).descriptors_kept(old(self), slot as int, parent * 64 + child)
                    &&& old(self).render_data.evicted_by_scan(
                        &final(self).render_data,
                        old(self).node_capacity(),
                        old(self).victim_node.place(),
                        final(self).victim_node.place(),
                        slot as int,
                        package.modified_usage_range,
                    )
                }
            },
    {
        let ghost capacity = self.node_capacity();
        // determine the slot; a node that is in the cache is overwritten if needed
        let provided: (usize, Option<(usize, u8)>, (usize, usize)) = if 0 == node_key {
            (0, None, (0, 1))
        } else {
            match self.victim_node.first_available_node(&mut self.render_data) {
                Some(provided) => provided,
                None => {
                    return None;
                },
            }
        };
        let node_element_index: usize = provided.0;
        let modified_usage_range: (usize, usize) = provided.2;
        let ghost provided_state = *self;
        let erased: (Vec<BrickUpdate<'a>>, Vec<usize>) = match provided.1 {
            Some(robbed_parent) => self.erase_node_child(robbed_parent.0, robbed_parent.1 as usize),
            None => {
                let mut modified_nodes: Vec<usize> = Vec::new();
                modified_nodes.push(node_element_index);
                (Vec::new(), modified_nodes)
            },
        };
        let modified_bricks: Vec<BrickUpdate<'a>> = erased.0;
        let modified_nodes: Vec<usize> = erased.1;
        let ghost before_pairing = *self;
        // pair the key with the slot, and write the properties of the node into the slot
        self.node_key_vs_meta_index.insert(node_key as u64, node_element_index);
        proof {
            if node_key != 0 && !old(self).victim_node.is_full_spec() {
                assert forall|other: u64| other != node_key implies self.node_key_vs_meta_index.slot_of(
                    other,
                ) == old(self).node_key_vs_meta_index.slot_of(other) by {
                    assert(old(self).node_key_vs_meta_index.key_of(node_element_index as int) is None);
                    if old(self).node_key_vs_meta_index.slot_of(other) == Some(node_element_index) {
                        assert(old(self).node_key_vs_meta_index.by_key@.contains_key(other));
                    }
                }
            }
        }
        self.clear_descriptors(node_element_index);
        let ghost cleared = *self;
        self.record_node(node_element_index, tree, node_key);
        let ghost recorded = *self;
        proof {
            assert forall|sectant: int| 0 <= sectant < 64 implies recorded.render_data.descriptor(
                node_element_index as int,
                sectant,
            ) == ABSENT by {
                assert(cleared.render_data.descriptor(node_element_index as int, sectant)
                    == ABSENT);
            }
        }
        let kind: u8 = match tree.nodes.get(node_key) {
            VoxelContent::Nothing => 0,
            VoxelContent::Internal(_) => 1,
            VoxelContent::UniformLeaf(_) => 2,
            VoxelContent::Leaf(_) => 3,
        };
        if kind == 1 {
            self.mirror_children(node_element_index, tree, node_key);
        } else if kind == 2 {
            let solid: Option<PaletteIndexValues> = match tree.nodes.get(node_key) {
                VoxelContent::UniformLeaf(ChunkData::Solid(voxel)) => Some(*voxel),
                _ => None,
            };
            if let Some(voxel) = solid {
                self.set_descriptor(node_element_index, 0, SOLID_TAG | voxel);
            }
        } else if kind == 3 {
            self.mirror_bricks(node_element_index, tree, node_key);
        }
        proof {
            if kind == 3 {
                assert forall|brick: int|
                    0 <= brick < old(self).brick_capacity() && old(self).holds_brick_below(
                        tree,
                        node_key as int,
                        64,
                        brick,
                    ) implies #[trigger] brick_used(self.render_data.used_bits@, brick) by {
                    let s = choose|s: int|
                        0 <= s < 64 && #[trigger] old(self).holds_brick_of(
                            tree,
                            node_key as int,
                            s,
                            brick,
                        );
                    assert(recorded.holds_brick_of(tree, node_key as int, s, brick));
                    assert(recorded.holds_brick_below(tree, node_key as int, 64, brick));
                }
            }
            assert forall|sectant: int| 0 <= sectant < 64 implies self.render_data.descriptor(
                node_element_index as int,
                sectant,
            ) == self.mirrored_descriptor(tree, node_key as int, sectant) by {
                if kind == 0 {
                    assert(self.render_data.descriptor(node_element_index as int, sectant)
                        == recorded.render_data.descriptor(node_element_index as int, sectant));
                } else if kind == 2 {
                    assert(recorded.render_data.descriptor(node_element_index as int, sectant)
                        == ABSENT);
                }
            }
        }
        Some(
            (
                node_element_index,
                CacheUpdatePackage {
                    brick_updates: modified_bricks,
                    modified_usage_range,
                    modified_nodes,
                },
            ),
        )
    }

    /// The cache differs from the other in the "used" flags of bricks and in the cursor of
    /// the scan for brick slots at most.
    pub open spec fn same_but_brick_flags(&self, other: &Self) -> bool {
        &&& self.victim_node == other.victim_node
        &&& self.node_key_vs_meta_index == other.node_key_vs_meta_index
        &&& self.brick_ownership == other.brick_ownership
        &&& self.render_data.node_metadata@ == other.render_data.node_metadata@
        &&& self.render_data.node_children@ == other.render_data.node_children@
        &&& self.render_data.node_ocbits@ == other.render_data.node_ocbits@
        &&& self.render_data.used_bits.len() == other.render_data.used_bits.len()
        &&& forall|slot: int|
            0 <= slot < self.render_data.used_bits.len() ==> node_used(
                self.render_data.used_bits@,
                slot,
            ) == node_used(other.render_data.used_bits@, slot)
    }

    /// The node slot and the sectant of the owner of the brick in the given slot, if the brick
    /// has an owner and the owner is a node in the cache.
    pub open spec fn owner_in_cache(&self, brick: int) -> Option<(usize, int)> {
        match self.brick_ownership.key_of(brick) {
            Some(code) => match self.node_key_vs_meta_index.slot_of((code / 64) as u64) {
                Some(meta_index) => Some((meta_index, (code % 64) as int)),
                None => None,
            },
            None => None,
        }
    }

    /// The brick slot that is released together with the given slot: the one that the
    /// descriptor of the former owner names, if the owner is a leaf in the cache.
    pub open spec fn given_up_with(&self, brick: int) -> Option<int> {
        match self.owner_in_cache(brick) {
            Some((meta_index, sectant)) => self.released_brick(meta_index as int, sectant),
            None => None,
        }
    }

    /// The brick slot is the one that the scan for a brick slot provides: the first, in the
    /// order of the scan from the cursor on, that may be taken at once; or, where no slot
    /// may, the slot at the cursor.
    pub open spec fn brick_scan_finds(&self, brick: int) -> bool {
        &&& self.brick_free(brick) || (brick == self.victim_brick && forall|other: int|
            0 <= other < self.brick_capacity() ==> !self.brick_free(other))
        &&& forall|other: int|
            0 <= other < self.brick_capacity() && self.brick_free(other) ==> scan_offset(
                self.victim_brick as int,
                brick,
                self.brick_capacity(),
            ) <= scan_offset(self.victim_brick as int, other, self.brick_capacity())
    }

    /// The range of brick slots that the scan goes through until it provides the given slot:
    /// from the cursor to the slot, or all slots where the scan goes round the end.
    pub open spec fn brick_scan_range(&self, brick: int) -> (usize, usize) {
        if self.brick_free(brick) && brick >= self.victim_brick {
            (self.victim_brick, (brick + 1) as usize)
        } else {
            (0usize, self.brick_capacity() as usize)
        }
    }

    /// The brick slot may be taken at once: it has no owner, or its "used" flag is not set.
    pub open spec fn brick_free(&self, brick: int) -> bool {
        self.brick_ownership.key_of(brick) is None || !brick_used(
            self.render_data.used_bits@,
            brick,
        )
    }

    /// Provides the slot of the first brick that may be overwritten, by the second-chance
    /// rule: from the cursor on, the first brick slot that has no owner, or whose "used" flag
    /// is not set; the flags of the slots that the scan passes are cleared. Where the scan
    /// comes back to the cursor, that slot is provided, with all flags cleared. The "used"
    /// flag of the slot provided is set, and the cursor stays at it.
    /// Returns the slot, and the range of brick slots that the scan went through.
    pub fn first_available_brick(&mut self) -> (r: (usize, (usize, usize)))
        requires
            old(self).wf(),
        ensures
            final(self).wf(),
            final(self).same_but_brick_flags(old(self)),
            r.0 < old(self).brick_capacity(),
            r.0 == final(self).victim_brick,
            old(self).brick_scan_finds(r.0 as int),
            // the flag of the slot is set, the flags of the slots passed are cleared
            forall|brick: int|
                0 <= brick < old(self).brick_capacity() ==> brick_used(
                    final(self).render_data.used_bits@,
                    brick,
                ) == (brick == r.0 || (brick_used(old(self).render_data.used_bits@, brick)
                    && old(self).brick_free(r.0 as int) && scan_offset(
                    old(self).victim_brick as int,
                    brick,
                    old(self).brick_capacity(),
                ) > scan_offset(
                    old(self).victim_brick as int,
                    r.0 as int,
                    old(self).brick_capacity(),
                ))),
            r.1 == old(self).brick_scan_range(r.0 as int),
    {
        let ghost capacity = self.node_capacity();
        let ghost bricks = self.brick_capacity();
        let ghost start = self.victim_brick as int;
        let ghost mut wrapped = false;
        let brick_count: usize = self.render_data.used_bits.len() * 31;
        let mut range_start: usize = self.victim_brick;
        let mut range_end: usize = self.victim_brick + 1;
        loop
            invariant
                self.wf(),
                old(self).wf(),
                self.same_but_brick_flags(old(self)),
                bricks == self.brick_capacity(),
                bricks == old(self).brick_capacity(),
                brick_count == bricks,
                capacity == self.node_capacity(),
                start == old(self).victim_brick,
                0 <= start < bricks,
                range_start < range_end <= bricks,
                !wrapped ==> start <= self.victim_brick < bricks && range_start == start
                    && range_end == (if self.victim_brick > start {
                    self.victim_brick as int
                } else {
                    start + 1
                }),
                wrapped ==> self.victim_brick <= start && range_end == bricks && range_start == (
                if self.victim_brick > 0 {
                    0
                } else {
                    start
                }),
                // the flags of the slots passed are cleared, and none of them could be taken
                forall|brick: int|
                    0 <= brick < bricks ==> brick_used(self.render_data.used_bits@, brick) == (
                    brick_used(old(self).render_data.used_bits@, brick) && !scan_passed(
                        start,
                        self.victim_brick as int,
                        wrapped,
                        brick,
                    )),
                forall|brick: int|
                    0 <= brick < bricks && scan_passed(
                        start,
                        self.victim_brick as int,
                        wrapped,
                        brick,
                    ) ==> !old(self).brick_free(brick),
            decreases bricks_used_count(self.render_data.used_bits@, bricks),
        {
            let brick_index: usize = self.victim_brick;
            if brick_index < range_start {
                range_start = brick_index;
            }
            if brick_index + 1 > range_end {
                range_end = brick_index + 1;
            }
            let ghost before = self.render_data;
            let ghost before_bits = self.render_data.used_bits@;
            proof {
                lemma_bricks_used_count_bounds(before_bits, bricks);
            }
            if !self.brick_ownership.contains_right(brick_index) || !Self::get_brick_used(
                &self.render_data.used_bits,
                brick_index,
            ) {
                Self::set_brick_used(&mut self.render_data.used_bits, brick_index, true);
                proof {
                    before.lemma_same_structure_wf(&self.render_data, capacity);
                }
                return (brick_index, (range_start, range_end));
            }
            // mark the brick to be given up at the next encounter, and step forward
            Self::set_brick_used(&mut self.render_data.used_bits, brick_index, false);
            self.victim_brick = (brick_index + 1) % brick_count;
            proof {
                if brick_index + 1 < brick_count {
                    vstd::arithmetic::div_mod::lemma_small_mod(
                        (brick_index + 1) as nat,
                        brick_count as nat,
                    );
                } else {
                    vstd::arithmetic::div_mod::lemma_mod_self_0(brick_count as int);
                    wrapped = true;
                }
                before.lemma_same_structure_wf(&self.render_data, capacity);
                lemma_bricks_used_count_cleared(
                    before_bits,
                    self.render_data.used_bits@,
                    brick_index as int,
                    bricks,
                );
                lemma_bricks_used_count_bounds(self.render_data.used_bits@, bricks);
            }
        }
    }

    /// Makes room in the cache for the brick of the given sectant of a leaf, and records
    /// that the slot holds that brick. The slot is the one that `first_available_brick`
    /// provides; if it held the brick of a node that is in the cache, the descriptor of that
    /// brick is set to absent in the slot of the node.
    ///
    /// Only a brick that is a matrix takes a slot: for a solid brick, whose value is held in
    /// its descriptor, and for a node that is no leaf, nothing is returned and nothing
    /// changes; for an empty brick the absent descriptor is returned, and nothing changes.
    ///
    /// Returns the descriptor of the brick and what changed in the cache.
    pub fn add_brick<'a, T: VoxelData>(
        &mut self,
        tree: &'a Contree<T>,
        node_key: usize,
        target_sectant: u8,
    ) -> (r: Option<(usize, CacheUpdatePackage<'a>)>)
        requires
            old(self).wf(),
            tree.wf(),
            target_sectant < 64,
        ensures
            final(self).wf(),
            final(self).node_capacity() == old(self).node_capacity(),
            final(self).brick_capacity() == old(self).brick_capacity(),
            match tree.brick_at(node_key as int, target_sectant as int) {
                None => r is None && *final(self) == *old(self),
                Some(ChunkData::Solid(_)) => r is None && *final(self) == *old(self),
                Some(ChunkData::Empty) => {
                    &&& *final(self) == *old(self)
                    &&& r matches Some((descriptor, package))
                    &&& descriptor == ABSENT
                    &&& package.brick_updates.len() == 0
                    &&& package.modified_nodes.len() == 0
                    &&& package.modified_usage_range == (0usize, 0usize)
                },
                Some(ChunkData::Parted(brick)) => {
                    &&& r matches Some((descriptor, package))
                    &&& descriptor < old(self).brick_capacity()
                    &&& final(self).brick_ownership.slot_of(
                        owner_code(node_key as int, target_sectant as int) as u64,
                    ) == Some(descriptor)
                    &&& final(self).owner_of(descriptor as int) == BrickOwnedBy::NodeAsChild(
                        node_key as u32,
                        target_sectant,
                    )
                    &&& final(self).node_key_vs_meta_index == old(self).node_key_vs_meta_index
                    &&& package.brick_updates.len() >= 1
                    &&& package.brick_updates[package.brick_updates.len() - 1].brick_index
                        == descriptor
                    &&& package.brick_updates[package.brick_updates.len() - 1].data == Some(&brick)
                    // the slot is the one that the scan provides
                    &&& old(self).brick_scan_finds(descriptor as int)
                    &&& final(self).victim_brick == descriptor
                    &&& final(self).victim_node == old(self).victim_node
                    &&& final(self).render_data.node_metadata@
                        == old(self).render_data.node_metadata@
                    &&& final(self).render_data.node_ocbits@ == old(self).render_data.node_ocbits@
                    &&& package.modified_usage_range == (
                        (old(self).brick_scan_range(descriptor as int).0 / 31) as usize,
                        (if old(self).brick_scan_range(descriptor as int).1 / 31 + 1 < old(self).render_data.used_bits.len() {
                            old(self).brick_scan_range(descriptor as int).1 / 31 + 1
                        } else {
                            old(self).render_data.used_bits.len() as int
                        }) as usize,
                    )
                    // the former owner of the slot, if it is a node in the cache, gives the
                    // brick up: its descriptor is set to absent
                    &&& match old(self).owner_in_cache(descriptor as int) {
                        Some((meta_index, sectant)) => {
                            &&& final(self).render_data.node_children@
                                == old(self).render_data.node_children@.update(
                                old(self).erased_place(meta_index as int, sectant),
                                ABSENT,
                            )
                            &&& package.modified_nodes.len() >= 1
                            &&& package.modified_nodes[0] == meta_index
                            &&& is_leaf_slot(
                                old(self).render_data.node_metadata@,
                                meta_index as int,
                            ) ==> package.modified_nodes.len() == 1
                            &&& match old(self).released_brick(meta_index as int, sectant) {
                                Some(released) => {
                                    &&& package.brick_updates.len() == 2
                                    &&& package.brick_updates[0].brick_index == released
                                    &&& package.brick_updates[0].data is None
                                },
                                None => package.brick_updates.len() == 1,
                            }
                        },
                        None => {
                            &&& final(self).render_data.node_children@
                                == old(self).render_data.node_children@
                            &&& package.modified_nodes.len() == 0
                            &&& package.brick_updates.len() == 1
                        },
                    }
                    // the former owner of the slot owns nothing afterwards, and all other
                    // pairs of owners and slots stay, but that of a brick given up
                    &&& forall|other: int|
                        0 <= other < old(self).brick_capacity() && other != descriptor
                            ==> final(self).brick_ownership.key_of(other)
                                == (if old(self).brick_ownership.key_of(other) == Some(
                            owner_code(node_key as int, target_sectant as int) as u64,
                        ) || old(self).given_up_with(descriptor as int) == Some(other) {
                            None
                        } else {
                            old(self).brick_ownership.key_of(other)
                        })
                },
            },
    {
        if !tree.nodes.key_is_valid(node_key) {
            return None;
        }
        proof {
            assert(tree.node_ok(node_key as int));
        }
        let brick: &'a ChunkData = match tree.nodes.get(node_key) {
            VoxelContent::UniformLeaf(brick) => brick,
            VoxelContent::Leaf(bricks) => &bricks[target_sectant as usize],
            _ => {
                // only leaves hold bricks
                return None;
            },
        };
        match brick {
            ChunkData::Empty => Some(
                (
                    ABSENT as usize,
                    CacheUpdatePackage {
                        brick_updates: Vec::new(),
                        modified_usage_range: (0, 0),
                        modified_nodes: Vec::new(),
                    },
                ),
            ),
            ChunkData::Solid(_) => {
                // the value of a solid brick is held in its descriptor; it takes no slot
                None
            },
            ChunkData::Parted(brick) => {
                let provided: (usize, (usize, usize)) = self.first_available_brick();
                let brick_index: usize = provided.0;
                let modified_brick_range: (usize, usize) = provided.1;
                let previous_owner: Option<u64> = self.brick_ownership.get_by_right(brick_index);
                let erased: (Vec<BrickUpdate<'a>>, Vec<usize>) = match previous_owner {
                    Some(code) => {
                        let key: u64 = code / 64;
                        let sectant: usize = (code % 64) as usize;
                        match self.node_key_vs_meta_index.get_by_left(key) {
                            Some(meta_index) => self.erase_node_child(meta_index, sectant),
                            None => (Vec::new(), Vec::new()),
                        }
                    },
                    None => (Vec::new(), Vec::new()),
                };
                let mut modified_bricks: Vec<BrickUpdate<'a>> = erased.0;
                let modified_nodes: Vec<usize> = erased.1;
                let owner: u64 = (node_key as u64) * 64 + (target_sectant as u64);
                self.brick_ownership.insert(owner, brick_index);
                modified_bricks.push(BrickUpdate { brick_index, data: Some(brick) });
                let usage_len: usize = self.render_data.used_bits.len();
                let range_end: usize = if modified_brick_range.1 / 31 + 1 < usage_len {
                    modified_brick_range.1 / 31 + 1
                } else {
                    usage_len
                };
                Some(
                    (
                        brick_index,
                        CacheUpdatePackage {
                            brick_updates: modified_bricks,
                            modified_usage_range: (modified_brick_range.0 / 31, range_end),
                            modified_nodes,
                        },
                    ),
                )
            },
        }
    }
}

/// A buffer of the given length that holds the value everywhere.
pub fn filled(value: u32, count: usize) -> (r: Vec<u32>)
    ensures
        r.len() == count,
        forall|i: int| 0 <= i < count ==> r[i] == value,
{
    let mut r: Vec<u32> = Vec::new();
    let mut i: usize = 0;
    while i < count
        invariant
            i <= count,
            r.len() == i,
            forall|j: int| 0 <= j < i ==> r[j] == value,
        decreases count - i,
    {
        r.push(value);
        i += 1;
    }
    r
}

} // verus!
