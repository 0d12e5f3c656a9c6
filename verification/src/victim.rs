//! The scan for a node slot of the cache to give out: free slots first, then, by the
//! second-chance rule, the slot of a node that was not used since the scan last saw it.
use vstd::prelude::*;
use crate::cache_types::{BoxTreeRenderData, VictimPointer, ABSENT};

verus! {

/// The "used" flag of the node in the slot is set.
pub open spec fn node_used(used_bits: Seq<u32>, slot: int) -> bool {
    used_bits[slot] & 1 == 1
}

/// The node in the slot is marked as a leaf.
pub open spec fn is_leaf_slot(metadata: Seq<u32>, slot: int) -> bool {
    metadata[slot / 8] & (1u32 << ((slot % 8) as u32)) != 0
}

/// The node in the slot is marked as a uniform leaf.
pub open spec fn is_uniform_slot(metadata: Seq<u32>, slot: int) -> bool {
    metadata[slot / 8] & (1u32 << ((8 + slot % 8) as u32)) != 0
}

/// The number of nodes in the first `n` slots whose "used" flag is set.
pub open spec fn used_count(used_bits: Seq<u32>, n: int) -> int
    decreases n,
{
    if n <= 0 {
        0
    } else {
        used_count(used_bits, n - 1) + (if node_used(used_bits, n - 1) {
            1int
        } else {
            0int
        })
    }
}

/// The count of "used" flags is not negative.
pub proof fn lemma_used_count_bounds(used_bits: Seq<u32>, n: int)
    ensures
        0 <= used_count(used_bits, n),
    decreases n,
{
    if n > 0 {
        lemma_used_count_bounds(used_bits, n - 1);
    }
}

/// Clearing a "used" flag that is set lowers the count of the flags by one.
pub proof fn lemma_used_count_cleared(before: Seq<u32>, after: Seq<u32>, slot: int, n: int)
    requires
        0 <= slot < n <= before.len(),
        after.len() == before.len(),
        node_used(before, slot),
        !node_used(after, slot),
        forall|other: int| 0 <= other < before.len() && other != slot
            ==> after[other] == before[other],
    ensures
        used_count(after, n) == used_count(before, n) - 1,
    decreases n,
{
    if n - 1 == slot {
        lemma_used_count_same(before, after, n - 1);
    } else {
        lemma_used_count_cleared(before, after, slot, n - 1);
    }
}

/// The count of the "used" flags depends on the first `n` slots only.
pub proof fn lemma_used_count_same(before: Seq<u32>, after: Seq<u32>, n: int)
    requires
        n <= before.len(),
        n <= after.len(),
        forall|other: int| 0 <= other < n ==> after[other] == before[other],
    ensures
        used_count(after, n) == used_count(before, n),
    decreases n,
{
    if n > 0 {
        lemma_used_count_same(before, after, n - 1);
    }
}

impl BoxTreeRenderData {
    /// The descriptor of the given child of the node in the given slot.
    pub open spec fn descriptor(&self, slot: int, child: int) -> u32 {
        self.node_children[slot * 64 + child]
    }

    /// The cursor may find a node to evict at the given child of the given slot: the node in
    /// the slot is no leaf, and the child is in the cache.
    pub open spec fn candidate(&self, slot: int, child: int) -> bool {
        !is_leaf_slot(self.node_metadata@, slot) && self.descriptor(slot, child) != ABSENT
    }

    /// At its given step, a scan from the place `start` stands at a child that is the node
    /// in the given slot.
    pub open spec fn scan_meets(&self, capacity: int, start: int, step: int, slot: int) -> bool {
        let place = window_place(start, step, 64 * capacity);
        self.candidate_at(capacity, place) && self.descriptor(
            capacity - 1 - place / 64,
            place % 64,
        ) == slot
    }

    /// In its first steps, as many as given, a scan from the place `start` stands at a child
    /// that is the node in the given slot.
    pub open spec fn scan_met(&self, capacity: int, start: int, steps: int, slot: int) -> bool {
        exists|step: int| 0 <= step < steps && #[trigger] self.scan_meets(
            capacity,
            start,
            step,
            slot,
        )
    }

    /// A scan of one step more has met what it had met before, and what it meets at the step.
    pub proof fn lemma_scan_met_step(&self, capacity: int, start: int, steps: int, slot: int)
        requires
            0 <= steps,
        ensures
            self.scan_met(capacity, start, steps + 1, slot) == (self.scan_met(
                capacity,
                start,
                steps,
                slot,
            ) || self.scan_meets(capacity, start, steps, slot)),
    {
        if self.scan_met(capacity, start, steps + 1, slot) {
            let step = choose|step: int| 0 <= step < steps + 1 && #[trigger] self.scan_meets(
                capacity,
                start,
                step,
                slot,
            );
            if step < steps {
                assert(self.scan_met(capacity, start, steps, slot));
            }
        }
        if self.scan_met(capacity, start, steps, slot) {
            let step = choose|step: int| 0 <= step < steps && #[trigger] self.scan_meets(
                capacity,
                start,
                step,
                slot,
            );
            assert(0 <= step < steps + 1 && self.scan_meets(capacity, start, step, slot));
        }
        if self.scan_meets(capacity, start, steps, slot) {
            assert(0 <= steps < steps + 1 && self.scan_meets(capacity, start, steps, slot));
        }
    }

    /// The second-chance rule, for a scan from the place `start` that provides the given slot
    /// at its step `steps`: every child in the cache that the scan stood at before had its
    /// "used" flag set when the scan came to it, and the node in the slot provided had not.
    /// A flag is set when the scan comes to it if it was set before the scan and the scan
    /// has not met the node before.
    pub open spec fn second_chance(
        &self,
        capacity: int,
        start: int,
        steps: int,
        slot: int,
    ) -> bool {
        &&& 0 <= steps
        &&& self.scan_meets(capacity, start, steps, slot)
        &&& !node_used(self.used_bits@, slot) || self.scan_met(capacity, start, steps, slot)
        &&& forall|step: int, other: int|
            0 <= step < steps && #[trigger] self.scan_meets(capacity, start, step, other)
                ==> node_used(self.used_bits@, other) && !self.scan_met(
                capacity,
                start,
                step,
                other,
            )
    }

    /// The "used" flags of the nodes after a scan from the place `start` that provided the
    /// given slot at its step `steps`: the flag of the slot is set, the flags of the nodes
    /// that the scan met are cleared, all others are as they were.
    pub open spec fn flags_after_scan(
        &self,
        after: &Self,
        capacity: int,
        start: int,
        steps: int,
        slot: int,
    ) -> bool {
        forall|other: int|
            0 <= other < capacity ==> #[trigger] node_used(after.used_bits@, other) == (other
                == slot || (node_used(self.used_bits@, other) && !self.scan_met(
                capacity,
                start,
                steps,
                other,
            )))
    }

    /// The scan from the place `start` provides the given slot at the place `stop`, by the
    /// second-chance rule, and leaves the "used" flags of the nodes as they are in the other
    /// buffers; the range is that of the slots of the nodes whose children the scan stood
    /// at.
    pub open spec fn evicted_by_scan(
        &self,
        after: &Self,
        capacity: int,
        start: int,
        stop: int,
        slot: int,
        range: (usize, usize),
    ) -> bool {
        exists|steps: int|
            {
                &&& #[trigger] self.second_chance(capacity, start, steps, slot)
                &&& stop == window_place(start, steps, 64 * capacity)
                &&& self.flags_after_scan(after, capacity, start, steps, slot)
                &&& scan_range_is(capacity, start, steps, range)
            }
    }

    /// The cursor may find a node to evict at the given place of the scan.
    pub open spec fn candidate_at(&self, capacity: int, place: int) -> bool {
        self.candidate(capacity - 1 - place / 64, place % 64)
    }

    /// The buffers have room for the given number of nodes, and the children of the nodes
    /// that are no leaves are absent or in slots of the cache other than the first.
    pub open spec fn wf_for(&self, capacity: int) -> bool {
        &&& 1 <= capacity
        &&& self.used_bits.len() >= capacity
        &&& self.node_metadata.len() * 8 >= capacity
        &&& self.node_children.len() == 64 * capacity
        &&& self.node_ocbits.len() == 2 * capacity
        &&& forall|slot: int, child: int|
            0 <= slot < capacity && 0 <= child < 64 && #[trigger] self.candidate(slot, child) ==> 0
                < self.descriptor(slot, child) < capacity
    }

    /// Buffers with the same metadata and the same descriptors have room for the same nodes.
    pub proof fn lemma_same_structure_wf(&self, other: &Self, capacity: int)
        requires
            self.wf_for(capacity),
            other.node_metadata@ == self.node_metadata@,
            other.node_children@ == self.node_children@,
            other.node_ocbits.len() == self.node_ocbits.len(),
            other.used_bits.len() == self.used_bits.len(),
        ensures
            other.wf_for(capacity),
    {
        assert forall|slot: int, child: int|
            0 <= slot < capacity && 0 <= child < 64 && #[trigger] other.candidate(
                slot,
                child,
            ) implies 0 < other.descriptor(slot, child) < capacity by {
            assert(self.candidate(slot, child));
        }
    }

    /// Buffers that differ in the "used" flags of nodes only have room for the same nodes.
    pub proof fn lemma_flags_keep_wf(&self, other: &Self, capacity: int)
        requires
            self.wf_for(capacity),
            other.same_but_node_flags(self),
        ensures
            other.wf_for(capacity),
    {
        assert forall|slot: int, child: int|
            0 <= slot < capacity && 0 <= child < 64 && #[trigger] other.candidate(
                slot,
                child,
            ) implies 0 < other.descriptor(slot, child) < capacity by {
            assert(self.candidate(slot, child));
        }
    }

    /// The buffers differ from the others in the "used" flags of nodes at most.
    pub open spec fn same_but_node_flags(&self, other: &Self) -> bool {
        &&& self.node_metadata@ == other.node_metadata@
        &&& self.node_children@ == other.node_children@
        &&& self.node_ocbits@ == other.node_ocbits@
        &&& self.used_bits.len() == other.used_bits.len()
        &&& forall|i: int|
            0 <= i < self.used_bits.len() ==> #[trigger] self.used_bits[i] & !1u32
                == other.used_bits[i] & !1u32
    }
}

/// A flag set or cleared in the lowest bit leaves all other bits as they were.
pub proof fn lemma_lowest_bit(value: u32)
    ensures
        (value | 1) & 1 == 1,
        (value & !1u32) & 1 == 0,
        (value | 1) & !1u32 == value & !1u32,
        (value & !1u32) & !1u32 == value & !1u32,
        value & 1 == 0 || value & 1 == 1,
{
    assert((value | 1) & 1 == 1) by (bit_vector);
    assert((value & !1u32) & 1 == 0) by (bit_vector);
    assert((value | 1) & !1u32 == value & !1u32) by (bit_vector);
    assert((value & !1u32) & !1u32 == value & !1u32) by (bit_vector);
    assert(value & 1 == 0 || value & 1 == 1) by (bit_vector);
}

impl VictimPointer {
    /// The cursor points at a child of a node slot.
    pub open spec fn wf(&self) -> bool {
        &&& 1 <= self.max_meta_len
        &&& 1 <= self.stored_items
        &&& self.meta_index < self.max_meta_len
        &&& self.child < 64
    }

    /// The place of the cursor in the order of the scan, which goes through the children
    /// of a node in rising order and through the slots of the nodes in falling order.
    pub open spec fn place(&self) -> int {
        (self.max_meta_len - 1 - self.meta_index) * 64 + self.child
    }

    /// The slot of the node at a place of the scan.
    pub open spec fn slot_at(&self, place: int) -> int {
        self.max_meta_len - 1 - place / 64
    }

    /// Returns the size of the buffer this pointer covers.
    pub fn len(&self) -> (r: usize)
        ensures
            r == self.max_meta_len,
    {
        self.max_meta_len
    }

    /// Returns true if no new nodes can be added without overwriting another.
    pub fn is_full(&self) -> (r: bool)
        ensures
            r == (self.max_meta_len <= self.stored_items),
    {
        self.max_meta_len <= self.stored_items
    }

    /// Creates the cursor for a cache of the given number of node slots. The first slot is
    /// that of the root, and counts as given out.
    pub fn new(max_meta_len: usize) -> (r: Self)
        requires
            max_meta_len >= 1,
        ensures
            r.wf(),
            r.max_meta_len == max_meta_len,
            r.stored_items == 1,
            r.loop_count == 0,
            r.child == 0,
            r.meta_index == (if max_meta_len > 1 {
                1int
            } else {
                0int
            }),
    {
        VictimPointer {
            max_meta_len,
            loop_count: 0,
            stored_items: 1,
            meta_index: if max_meta_len > 1 {
                1
            } else {
                0
            },
            child: 0,
        }
    }

    /// Steps the cursor forward to the next child, if there is one, or to the next node.
    pub fn step(&mut self)
        requires
            old(self).wf(),
        ensures
            final(self).wf(),
            final(self).max_meta_len == old(self).max_meta_len,
            final(self).stored_items == old(self).stored_items,
            final(self).place() == (if old(self).place() + 1 == old(self).max_meta_len * 64 {
                0
            } else {
                old(self).place() + 1
            }),
            0 <= old(self).place() < old(self).max_meta_len * 64,
            // the rounds are counted where the cursor leaves the last child of the last node
            final(self).loop_count == (if old(self).child == 63 && old(self).meta_index == 0
                && old(self).loop_count < usize::MAX {
                old(self).loop_count + 1
            } else {
                old(self).loop_count as int
            }),
    {
        if self.child >= 63 {
            self.skip_node();
        } else {
            self.child += 1;
        }
    }

    /// Steps the cursor forward to the first child of the next node; after the last node the
    /// first follows again, and the rounds of the scan are counted.
    pub fn skip_node(&mut self)
        requires
            old(self).wf(),
        ensures
            final(self).wf(),
            final(self).max_meta_len == old(self).max_meta_len,
            final(self).stored_items == old(self).stored_items,
            final(self).child == 0,
            final(self).meta_index == (if old(self).meta_index == 0 {
                old(self).max_meta_len - 1
            } else {
                old(self).meta_index - 1
            }),
            final(self).loop_count == (if old(self).meta_index == 0 && old(self).loop_count
                < usize::MAX {
                old(self).loop_count + 1
            } else {
                old(self).loop_count as int
            }),
    {
        if self.meta_index == 0 {
            if self.loop_count < usize::MAX {
                self.loop_count += 1;
            }
            self.meta_index = self.max_meta_len - 1;
        } else {
            self.meta_index -= 1;
        }
        self.child = 0;
    }

    /// Provides the number of times the cursor has gone through all slots.
    pub fn get_loop_count(&self) -> (r: usize)
        ensures
            r == self.loop_count,
    {
        self.loop_count
    }

    /// Provides a node slot to write a node into, and the range of the usage buffer that
    /// changed.
    ///
    /// While slots are left that were never given out, the next of them is provided, and
    /// nothing is evicted. After that the scan goes on from the cursor: at a child of a node
    /// that is no leaf, where the child is in the cache, the slot of the child is provided if
    /// its "used" flag is not set, together with the slot of the node and the sectant of the
    /// child; a flag that is set is cleared, and the scan goes on. The "used" flag of the slot
    /// provided is set. The first slot, that of the root, is never provided.
    ///
    /// Returns nothing if the cache is full and no node that is no leaf has a child in it.
    pub fn first_available_node(&mut self, render_data: &mut BoxTreeRenderData) -> (r: Option<
        (usize, Option<(usize, u8)>, (usize, usize)),
    >)
        requires
            old(self).wf(),
            old(render_data).wf_for(old(self).max_meta_len as int),
        ensures
            final(self).wf(),
            final(self).max_meta_len == old(self).max_meta_len,
            final(render_data).wf_for(old(self).max_meta_len as int),
            final(render_data).same_but_node_flags(old(render_data)),
            !old(self).is_full_spec() ==> {
                &&& r == Some(
                    (
                        old(self).stored_items,
                        None::<(usize, u8)>,
                        (old(self).stored_items, (old(self).stored_items + 1) as usize),
                    ),
                )
                &&& final(self).stored_items == old(self).stored_items + 1
                &&& node_used(final(render_data).used_bits@, old(self).stored_items as int)
                &&& forall|slot: int|
                    0 <= slot < old(render_data).used_bits.len() && slot != old(self).stored_items
                        ==> final(render_data).used_bits[slot] == old(render_data).used_bits[slot]
            },
            old(self).is_full_spec() ==> {
                &&& final(self).stored_items == old(self).stored_items
                &&& match r {
                    Some((slot, robbed, range)) => {
                        &&& robbed matches Some((parent, child))
                        &&& parent < old(self).max_meta_len
                        &&& child < 64
                        &&& old(render_data).candidate(parent as int, child as int)
                        &&& old(render_data).descriptor(parent as int, child as int) == slot
                        &&& 0 < slot < old(self).max_meta_len
                        &&& node_used(final(render_data).used_bits@, slot as int)
                        &&& range.0 < range.1 <= old(self).max_meta_len
                        &&& final(self).meta_index == parent
                        &&& final(self).child == child
                        &&& old(render_data).evicted_by_scan(
                            final(render_data),
                            old(self).max_meta_len as int,
                            old(self).place(),
                            final(self).place(),
                            slot as int,
                            range,
                        )
                    },
                    None => forall|slot: int, child: int|
                        0 <= slot < old(self).max_meta_len && 0 <= child < 64
                            ==> !old(render_data).candidate(slot, child),
                }
            },
    {
        let ghost capacity = self.max_meta_len as int;
        // if there is space left in the cache, use it all up
        if !self.is_full() {
            let slot: usize = self.stored_items;
            proof {
                lemma_lowest_bit(render_data.used_bits[slot as int]);
            }
            render_data.used_bits[slot] = render_data.used_bits[slot] | 0x01;
            self.meta_index = slot;
            self.stored_items += 1;
            proof {
                old(render_data).lemma_flags_keep_wf(render_data, capacity);
            }
            return Some((slot, None, (slot, slot + 1)));
        }
        let places: usize = render_data.node_children.len();
        let ghost start = self.place();
        let ghost mut steps: int = 0;
        let ghost mut window_start: int = self.place();
        let mut fruitless: usize = 0;
        let mut range_start: usize = self.meta_index;
        let mut range_end: usize = self.meta_index + 1;
        proof {
            assert(0 <= self.place() < places) by (nonlinear_arith)
                requires
                    self.place() == (self.max_meta_len - 1 - self.meta_index) * 64 + self.child,
                    self.meta_index < self.max_meta_len,
                    self.child < 64,
                    places == 64 * self.max_meta_len,
            ;
            vstd::arithmetic::div_mod::lemma_small_mod(self.place() as nat, places as nat);
        }
        loop
            invariant
                self.wf(),
                self.max_meta_len == capacity,
                self.max_meta_len == old(self).max_meta_len,
                self.stored_items == old(self).stored_items,
                old(self).is_full_spec(),
                places == 64 * capacity,
                render_data.wf_for(capacity),
                old(render_data).wf_for(capacity),
                render_data.same_but_node_flags(old(render_data)),
                fruitless <= places,
                0 <= window_start < places,
                0 <= self.place() < places,
                self.place() == (window_start + fruitless) % (places as int),
                forall|j: int|
                    0 <= j < fruitless ==> !render_data.candidate_at(
                        capacity,
                        #[trigger] window_place(window_start, j, places as int),
                    ),
                range_start < range_end <= capacity,
                start == old(self).place(),
                0 <= start < places,
                0 <= steps,
                steps == 0 ==> range_start == self.meta_index && range_end == self.meta_index + 1,
                steps > 0 ==> scan_range_is(capacity, start, steps - 1, (range_start, range_end)),
                self.place() == window_place(start, steps, places as int),
                forall|other: int|
                    0 <= other < capacity ==> #[trigger] node_used(render_data.used_bits@, other)
                        == (node_used(old(render_data).used_bits@, other)
                            && !old(render_data).scan_met(capacity, start, steps, other)),
                forall|step: int, other: int|
                    0 <= step < steps && #[trigger] old(render_data).scan_meets(
                        capacity,
                        start,
                        step,
                        other,
                    ) ==> node_used(old(render_data).used_bits@, other)
                        && !old(render_data).scan_met(capacity, start, step, other),
            decreases used_count(render_data.used_bits@, capacity), places - fruitless,
        {
            if fruitless >= places {
                proof {
                    assert forall|slot: int, child: int|
                        0 <= slot < capacity
                            && 0 <= child < 64 implies !old(render_data).candidate(slot, child) by {
                        let place = (capacity - 1 - slot) * 64 + child;
                        lemma_place_in_window(place, window_start, places as int);
                        let j = choose|j: int|
                            0 <= j < places && #[trigger] window_place(
                                window_start,
                                j,
                                places as int,
                            ) == place;
                        assert(!render_data.candidate_at(
                            capacity,
                            window_place(window_start, j, places as int),
                        ));
                        assert(place / 64 == capacity - 1 - slot && place % 64 == child);
                    }
                }
                return None;
            }
            let ghost range_before = (range_start, range_end);
            if self.meta_index < range_start {
                range_start = self.meta_index;
            }
            if self.meta_index + 1 > range_end {
                range_end = self.meta_index + 1;
            }
            proof {
                assert(self.meta_index == scan_slot(capacity, start, steps));
                if steps > 0 {
                    lemma_scan_range_grows(capacity, start, steps, range_before, self.meta_index);
                } else {
                    assert(scan_range_is(capacity, start, 0, (range_start, range_end)));
                }
                assert(scan_range_is(capacity, start, steps, (range_start, range_end)));
            }
            let child_offset: usize = self.meta_index * 64 + self.child;
            let child_meta_index: usize = render_data.node_children[child_offset] as usize;
            let meta_word: u32 = render_data.node_metadata[self.meta_index / 8];
            let leaf_mask: u32 = 1u32 << ((self.meta_index % 8) as u32);
            let ghost place = self.place();
            proof {
                assert(self.slot_at(place) == self.meta_index && place % 64 == self.child);
                assert(render_data.candidate_at(capacity, place) == render_data.candidate(
                    self.meta_index as int,
                    self.child as int,
                ));
            }
            let mut found: bool = false;
            let ghost before_bits = render_data.used_bits@;
            proof {
                lemma_used_count_bounds(before_bits, capacity);
            }
            if 0 == (meta_word & leaf_mask) && child_meta_index != ABSENT as usize {
                // the child of the node at the cursor is a node in the cache
                assert(render_data.candidate(self.meta_index as int, self.child as int));
                proof {
                    lemma_lowest_bit(render_data.used_bits[child_meta_index as int]);
                }
                assert(old(render_data).scan_meets(capacity, start, steps,
                    child_meta_index as int));
                if 0 == (render_data.used_bits[child_meta_index] & 0x01) {
                    render_data.used_bits[child_meta_index] = render_data.used_bits[child_meta_index]
                        | 0x01;
                    proof {
                        old(render_data).lemma_flags_keep_wf(render_data, capacity);
                        assert(!node_used(before_bits, child_meta_index as int));
                        assert(old(render_data).second_chance(
                            capacity,
                            start,
                            steps,
                            child_meta_index as int,
                        ));
                        assert forall|other: int| 0 <= other < capacity implies #[trigger] node_used(
                            render_data.used_bits@,
                            other,
                        ) == (other == child_meta_index || (node_used(
                            old(render_data).used_bits@,
                            other,
                        ) && !old(render_data).scan_met(capacity, start, steps, other))) by {
                            if other != child_meta_index {
                                assert(node_used(render_data.used_bits@, other) == node_used(
                                    before_bits,
                                    other,
                                ));
                            }
                        }
                        assert(old(render_data).flags_after_scan(
                            render_data,
                            capacity,
                            start,
                            steps,
                            child_meta_index as int,
                        ));
                        assert(self.place() == window_place(start, steps, 64 * capacity));
                        assert(old(render_data).candidate(
                            self.meta_index as int,
                            self.child as int,
                        ));
                        assert(old(render_data).descriptor(
                            self.meta_index as int,
                            self.child as int,
                        ) == child_meta_index);
                        assert(0 < child_meta_index < capacity);
                        assert(node_used(render_data.used_bits@, child_meta_index as int));
                        assert(old(render_data).evicted_by_scan(
                            render_data,
                            capacity,
                            start,
                            self.place(),
                            child_meta_index as int,
                            (range_start, range_end),
                        ));
                    }
                    return Some(
                        (
                            child_meta_index,
                            Some((self.meta_index, self.child as u8)),
                            (range_start, range_end),
                        ),
                    );
                } else {
                    // the child gets a second chance
                    render_data.used_bits[child_meta_index] = render_data.used_bits[child_meta_index]
                        & !0x01u32;
                    found = true;
                    proof {
                        old(render_data).lemma_flags_keep_wf(render_data, capacity);
                        lemma_used_count_cleared(
                            before_bits,
                            render_data.used_bits@,
                            child_meta_index as int,
                            capacity,
                        );
                    }
                }
            }
            proof {
                assert forall|other: int| 0 <= other < capacity implies #[trigger] node_used(
                    render_data.used_bits@,
                    other,
                ) == (node_used(old(render_data).used_bits@, other)
                    && !old(render_data).scan_met(capacity, start, steps + 1, other)) by {
                    old(render_data).lemma_scan_met_step(capacity, start, steps, other);
                    if found && other == child_meta_index {
                    } else {
                        assert(node_used(render_data.used_bits@, other) == node_used(
                            before_bits,
                            other,
                        ));
                        assert(!old(render_data).scan_meets(capacity, start, steps, other));
                    }
                }
                assert forall|step: int, other: int|
                    0 <= step < steps + 1 && #[trigger] old(render_data).scan_meets(
                        capacity,
                        start,
                        step,
                        other,
                    ) implies node_used(old(render_data).used_bits@, other)
                        && !old(render_data).scan_met(capacity, start, step, other) by {
                    if step == steps {
                        assert(found && other == child_meta_index);
                        assert(node_used(before_bits, other));
                    }
                }
            }
            self.step();
            proof {
                lemma_window_grows(start, steps, places as int, place);
                steps = steps + 1;
                if found {
                    window_start = self.place();
                    vstd::arithmetic::div_mod::lemma_small_mod(
                        window_start as nat,
                        places as nat,
                    );
                } else {
                    lemma_window_grows(window_start, fruitless as int, places as int, place);
                    assert(window_place(window_start, fruitless as int, places as int) == place);
                }
            }
            proof {
                let count_before = used_count(before_bits, capacity);
                let count = used_count(render_data.used_bits@, capacity);
                lemma_used_count_bounds(render_data.used_bits@, capacity);
                assert(found ==> count == count_before - 1);
                assert(!found ==> count == count_before);
            }
            if found {
                fruitless = 0;
            } else {
                fruitless += 1;
            }
        }
    }

    /// No slot is left that was never given out.
    pub open spec fn is_full_spec(&self) -> bool {
        self.max_meta_len <= self.stored_items
    }
}

/// Every place of the scan lies in a window that is as long as the scan.
pub proof fn lemma_place_in_window(place: int, start: int, places: int)
    requires
        0 <= place < places,
        0 <= start < places,
    ensures
        exists|j: int| 0 <= j < places && #[trigger] window_place(start, j, places) == place,
{
    let j = if place >= start {
        place - start
    } else {
        place - start + places
    };
    if place >= start {
        vstd::arithmetic::div_mod::lemma_small_mod(place as nat, places as nat);
    } else {
        vstd::arithmetic::div_mod::lemma_fundamental_div_mod_converse(start + j, places, 1, place);
    }
    assert(0 <= j < places && window_place(start, j, places) == place);
}

/// The slot of the node that a scan over the children of `capacity` nodes stands at after
/// the given number of steps from the place `start`.
pub open spec fn scan_slot(capacity: int, start: int, step: int) -> int {
    capacity - 1 - window_place(start, step, 64 * capacity) / 64
}

/// The range is that of the slots of the nodes that a scan from the place `start` stands
/// at in its steps up to the given one: from the least of them up to, not including, the
/// one after the greatest.
pub open spec fn scan_range_is(capacity: int, start: int, steps: int, range: (usize,
    usize)) -> bool {
    &&& forall|j: int| 0 <= j <= steps ==> range.0 <= #[trigger] scan_slot(capacity, start, j)
        < range.1
    &&& exists|j: int| 0 <= j <= steps && range.0 == #[trigger] scan_slot(capacity, start, j)
    &&& exists|j: int| 0 <= j <= steps && range.1 == 1 + #[trigger] scan_slot(capacity, start, j)
}

/// The range of a scan that took one step more, and came to a node with the given slot.
pub proof fn lemma_scan_range_grows(
    capacity: int,
    start: int,
    steps: int,
    range: (usize, usize),
    slot: usize,
)
    requires
        0 < steps,
        scan_range_is(capacity, start, steps - 1, range),
        slot == scan_slot(capacity, start, steps),
        slot < usize::MAX,
    ensures
        scan_range_is(
            capacity,
            start,
            steps,
            (
                if slot < range.0 {
                    slot
                } else {
                    range.0
                },
                if slot + 1 > range.1 {
                    (slot + 1) as usize
                } else {
                    range.1
                },
            ),
        ),
{
    let low = choose|j: int| 0 <= j <= steps - 1 && range.0 == #[trigger] scan_slot(
        capacity,
        start,
        j,
    );
    let high = choose|j: int| 0 <= j <= steps - 1 && range.1 == 1 + #[trigger] scan_slot(
        capacity,
        start,
        j,
    );
    let wider = (
        if slot < range.0 {
            slot
        } else {
            range.0
        },
        if slot + 1 > range.1 {
            (slot + 1) as usize
        } else {
            range.1
        },
    );
    if slot < range.0 {
        assert(0 <= steps <= steps && wider.0 == scan_slot(capacity, start, steps));
    } else {
        assert(0 <= low <= steps && wider.0 == scan_slot(capacity, start, low));
    }
    if slot + 1 > range.1 {
        assert(0 <= steps <= steps && wider.1 == 1 + scan_slot(capacity, start, steps));
    } else {
        assert(0 <= high <= steps && wider.1 == 1 + scan_slot(capacity, start, high));
    }
    assert forall|j: int| 0 <= j <= steps implies wider.0 <= #[trigger] scan_slot(
        capacity,
        start,
        j,
    ) < wider.1 by {
        if j < steps {
            assert(range.0 <= scan_slot(capacity, start, j) < range.1);
        }
    }
}

/// The place that lies the given number of steps after the start of a window of the scan.
pub open spec fn window_place(start: int, steps: int, places: int) -> int {
    (start + steps) % places
}

/// The place after the last of a window is the place at the end of the window that is one
/// longer.
pub proof fn lemma_window_grows(start: int, length: int, places: int, place: int)
    requires
        0 <= start < places,
        0 <= length,
        0 <= place < places,
        place == (start + length) % places,
    ensures
        (if place + 1 == places {
            0
        } else {
            place + 1
        }) == (start + length + 1) % places,
{
    let q = (start + length) / places;
    assert(start + length == q * places + place) by (nonlinear_arith)
        requires
            place == (start + length) % places,
            q == (start + length) / places,
            places > 0,
    ;
    if place + 1 == places {
        assert(start + length + 1 == (q + 1) * places + 0) by (nonlinear_arith)
            requires
                start + length == q * places + place,
                place + 1 == places,
        ;
        vstd::arithmetic::div_mod::lemma_fundamental_div_mod_converse(
            start + length + 1,
            places,
            q + 1,
            0,
        );
    } else {
        vstd::arithmetic::div_mod::lemma_fundamental_div_mod_converse(
            start + length + 1,
            places,
            q,
            place + 1,
        );
    }
}

} // verus!
