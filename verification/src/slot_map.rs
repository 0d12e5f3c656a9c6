//! A one-to-one map between keys and the slots of a buffer.
use vstd::prelude::*;
use std::collections::HashMap;

verus! {

broadcast use vstd::std_specs::hash::group_hash_axioms;

/// Pairs of a key and a slot, in which no key and no slot occurs twice.
pub struct SlotMap {
    /// The key that each slot is paired with.
    pub by_slot: Vec<Option<u64>>,
    /// The slot that each key is paired with.
    pub by_key: HashMap<u64, usize>,
}

impl SlotMap {
    /// The number of slots.
    pub open spec fn capacity(&self) -> int {
        self.by_slot.len() as int
    }

    /// The key that the slot is paired with.
    pub open spec fn key_of(&self, slot: int) -> Option<u64> {
        if 0 <= slot < self.by_slot.len() {
            self.by_slot[slot]
        } else {
            None
        }
    }

    /// The slot that the key is paired with.
    pub open spec fn slot_of(&self, key: u64) -> Option<usize> {
        if self.by_key@.contains_key(key) {
            Some(self.by_key@[key])
        } else {
            None
        }
    }

    /// The two directions of the map agree: a key is paired with a slot if and only if the
    /// slot is paired with the key. So no two keys share a slot, and no two slots a key.
    pub open spec fn wf(&self) -> bool {
        &&& forall|slot: int|
            0 <= slot < self.by_slot.len() && (#[trigger] self.by_slot[slot]) is Some
                ==> self.by_key@.contains_key(self.by_slot[slot].unwrap())
                && self.by_key@[self.by_slot[slot].unwrap()] == slot
        &&& forall|key: u64| #[trigger]
            self.by_key@.contains_key(key) ==> self.by_key@[key] < self.by_slot.len()
                && self.by_slot[self.by_key@[key] as int] == Some(key)
    }

    /// In a well formed map no two keys are paired with one slot, and no two slots with one
    /// key.
    pub proof fn lemma_one_to_one(&self, first_key: u64, second_key: u64, first_slot: int,
        second_slot: int)
        requires
            self.wf(),
        ensures
            self.slot_of(first_key) is Some && self.slot_of(first_key) == self.slot_of(second_key)
                ==> first_key == second_key,
            self.key_of(first_slot) is Some && self.key_of(first_slot) == self.key_of(second_slot)
                ==> first_slot == second_slot,
            self.slot_of(first_key) == Some(first_slot as usize) && 0 <= first_slot <= usize::MAX
                <==> self.key_of(first_slot) == Some(first_key),
    {
        if self.slot_of(first_key) is Some && self.slot_of(first_key) == self.slot_of(second_key) {
            assert(self.by_key@.contains_key(first_key));
            assert(self.by_key@.contains_key(second_key));
        }
        if self.key_of(first_slot) is Some && self.key_of(first_slot) == self.key_of(second_slot) {
            assert(self.by_slot[first_slot] is Some);
            assert(self.by_slot[second_slot] is Some);
        }
        if self.key_of(first_slot) == Some(first_key) {
            assert(self.by_slot[first_slot] is Some);
        }
        if self.slot_of(first_key) == Some(first_slot as usize) && 0 <= first_slot <= usize::MAX {
            assert(self.by_key@.contains_key(first_key));
        }
    }

    /// A map of the given number of slots, without pairs.
    pub fn new(capacity: usize) -> (map: Self)
        ensures
            map.wf(),
            map.capacity() == capacity,
            forall|slot: int| map.key_of(slot) is None,
            forall|key: u64| map.slot_of(key) is None,
    {
        let mut by_slot: Vec<Option<u64>> = Vec::new();
        let mut i: usize = 0;
        while i < capacity
            invariant
                i <= capacity,
                by_slot.len() == i,
                forall|j: int| 0 <= j < i ==> by_slot[j] is None,
            decreases capacity - i,
        {
            by_slot.push(None);
            i += 1;
        }
        SlotMap { by_slot, by_key: HashMap::new() }
    }

    /// The slot that the key is paired with, if it is paired.
    pub fn get_by_left(&self, key: u64) -> (r: Option<usize>)
        requires
            self.wf(),
        ensures
            r == self.slot_of(key),
            r matches Some(slot) ==> slot < self.capacity() && self.key_of(slot as int) == Some(
                key,
            ),
    {
        match self.by_key.get(&key) {
            Some(slot) => Some(*slot),
            None => None,
        }
    }

    /// The key that the slot is paired with, if it is paired.
    pub fn get_by_right(&self, slot: usize) -> (r: Option<u64>)
        requires
            self.wf(),
        ensures
            r == self.key_of(slot as int),
            r matches Some(key) ==> self.slot_of(key) == Some(slot),
    {
        if slot < self.by_slot.len() {
            self.by_slot[slot]
        } else {
            None
        }
    }

    /// Tells whether the key is paired with a slot.
    pub fn contains_left(&self, key: u64) -> (r: bool)
        requires
            self.wf(),
        ensures
            r == self.slot_of(key).is_some(),
    {
        self.by_key.contains_key(&key)
    }

    /// Tells whether the slot is paired with a key.
    pub fn contains_right(&self, slot: usize) -> (r: bool)
        requires
            self.wf(),
        ensures
            r == self.key_of(slot as int).is_some(),
    {
        slot < self.by_slot.len() && self.by_slot[slot].is_some()
    }

    /// Removes the pair of the slot, if there is one.
    pub fn remove_by_right(&mut self, slot: usize)
        requires
            old(self).wf(),
        ensures
            final(self).wf(),
            final(self).capacity() == old(self).capacity(),
            final(self).key_of(slot as int) is None,
            forall|other: int| other != slot
                ==> final(self).key_of(other) == old(self).key_of(other),
            forall|key: u64|
                final(self).slot_of(key) == (if old(self).slot_of(key) == Some(slot) {
                    None
                } else {
                    old(self).slot_of(key)
                }),
    {
        if slot < self.by_slot.len() {
            if let Some(key) = self.by_slot[slot] {
                self.by_key.remove(&key);
                self.by_slot[slot] = None;
            }
        }
    }

    /// Pairs the key with the slot. The pairs that the key and the slot were in before are
    /// removed, so that no key and no slot occurs twice.
    pub fn insert(&mut self, key: u64, slot: usize)
        requires
            old(self).wf(),
            slot < old(self).capacity(),
        ensures
            final(self).wf(),
            final(self).capacity() == old(self).capacity(),
            final(self).key_of(slot as int) == Some(key),
            final(self).slot_of(key) == Some(slot),
            forall|other: int|
                other != slot ==> final(self).key_of(other) == (if old(self).key_of(other)
                    == Some(key) {
                    None
                } else {
                    old(self).key_of(other)
                }),
            forall|other: u64|
                other != key ==> final(self).slot_of(other) == (if old(self).slot_of(other)
                    == Some(slot) {
                    None
                } else {
                    old(self).slot_of(other)
                }),
    {
        self.remove_by_right(slot);
        let ghost cleared = *self;
        match self.by_key.get(&key) {
            Some(previous) => {
                let previous_slot: usize = *previous;
                self.by_slot[previous_slot] = None;
            },
            None => {},
        }
        self.by_key.insert(key, slot);
        self.by_slot[slot] = Some(key);
    }
}

} // verus!
