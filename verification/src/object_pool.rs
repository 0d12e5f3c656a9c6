//! A pool of items addressed by stable keys; the keys of freed items are given out again.
use vstd::prelude::*;

verus! {

/// One slot of the pool.
pub struct ReusableItem<T> {
    pub reserved: bool,
    pub item: T,
}

/// Stores items under integer keys. A key stays valid, and keeps its item, until it is freed.
pub struct ObjectPool<T> {
    pub buffer: Vec<ReusableItem<T>>,
    pub first_available: usize,
}

impl<T> ObjectPool<T> {
    /// Every slot below the first one known to be available is taken.
    pub open spec fn wf(&self) -> bool {
        &&& self.first_available <= self.buffer.len()
        &&& forall|i: int| 0 <= i < self.first_available ==> (#[trigger] self.buffer[i]).reserved
    }

    /// The number of slots, taken or free.
    pub open spec fn slots(&self) -> int {
        self.buffer.len() as int
    }

    /// The key names an item of the pool.
    pub open spec fn valid(&self, key: int) -> bool {
        0 <= key < self.buffer.len() && self.buffer[key].reserved
    }

    /// The item stored under the key.
    pub open spec fn item(&self, key: int) -> T {
        self.buffer[key].item
    }

    /// An empty pool with room for the given number of items.
    pub fn with_capacity(capacity: usize) -> (pool: Self)
        ensures
            pool.wf(),
            pool.slots() == 0,
    {
        ObjectPool { buffer: Vec::with_capacity(capacity), first_available: 0 }
    }

    /// The number of slots, taken or free.
    pub fn len(&self) -> (r: usize)
        ensures
            r == self.slots(),
    {
        self.buffer.len()
    }

    /// Tells whether the key names an item of the pool.
    pub fn key_is_valid(&self, key: usize) -> (r: bool)
        ensures
            r == self.valid(key as int),
    {
        key < self.buffer.len() && self.buffer[key].reserved
    }

    /// Stores the item and returns its key: the lowest free key, or a new one.
    pub fn push(&mut self, item: T) -> (key: usize)
        requires
            old(self).wf(),
        ensures
            final(self).wf(),
            !old(self).valid(key as int),
            final(self).valid(key as int),
            final(self).item(key as int) == item,
            key <= old(self).slots(),
            forall|k: int| 0 <= k < key ==> old(self).valid(k),
            final(self).slots() == (if key == old(self).slots() {
                old(self).slots() + 1
            } else {
                old(self).slots()
            }),
            forall|k: int| k != key ==> final(self).valid(k) == old(self).valid(k),
            forall|k: int|
                0 <= k < old(self).slots() && k != key ==> final(self).item(k) == old(self).item(
                    k,
                ),
    {
        let mut key: usize = self.first_available;
        while key < self.buffer.len() && self.buffer[key].reserved
            invariant
                key <= self.buffer.len(),
                forall|i: int| 0 <= i < key ==> (#[trigger] self.buffer[i]).reserved,
            decreases self.buffer.len() - key,
        {
            key += 1;
        }
        if key < self.buffer.len() {
            self.buffer[key] = ReusableItem { reserved: true, item };
        } else {
            self.buffer.push(ReusableItem { reserved: true, item });
        }
        self.first_available = key;
        key
    }

    /// Gives the key back to the pool. Returns false, and changes nothing, if the key names
    /// no item.
    pub fn free(&mut self, key: usize) -> (r: bool)
        requires
            old(self).wf(),
        ensures
            final(self).wf(),
            r == old(self).valid(key as int),
            final(self).slots() == old(self).slots(),
            !final(self).valid(key as int),
            forall|k: int| k != key ==> final(self).valid(k) == old(self).valid(k),
            forall|k: int|
                0 <= k < old(self).slots() && k != key ==> final(self).item(k) == old(self).item(
                    k,
                ),
    {
        if self.key_is_valid(key) {
            self.buffer[key].reserved = false;
            if key < self.first_available {
                self.first_available = key;
            }
            true
        } else {
            false
        }
    }

    /// The item stored under the key.
    pub fn get(&self, key: usize) -> (item: &T)
        requires
            self.valid(key as int),
        ensures
            *item == self.item(key as int),
    {
        &self.buffer[key].item
    }

    /// Stores the item under the key and returns the item that was stored there.
    pub fn replace(&mut self, key: usize, item: T) -> (previous: T)
        requires
            old(self).wf(),
            old(self).valid(key as int),
        ensures
            final(self).wf(),
            previous == old(self).item(key as int),
            final(self).item(key as int) == item,
            final(self).slots() == old(self).slots(),
            forall|k: int| final(self).valid(k) == old(self).valid(k),
            forall|k: int|
                0 <= k < old(self).slots() && k != key ==> final(self).item(k) == old(self).item(
                    k,
                ),
    {
        let mut item = item;
        core::mem::swap(&mut self.buffer[key].item, &mut item);
        item
    }

    /// Gives mutable access to the item stored under the key.
    pub fn get_mut(&mut self, key: usize) -> (item: &mut T)
        requires
            old(self).wf(),
            old(self).valid(key as int),
        ensures
            *item == old(self).item(key as int),
            final(self).wf(),
            final(self).item(key as int) == *final(item),
            final(self).slots() == old(self).slots(),
            forall|k: int| final(self).valid(k) == old(self).valid(k),
            forall|k: int|
                0 <= k < old(self).slots() && k != key ==> final(self).item(k) == old(self).item(
                    k,
                ),
    {
        &mut self.buffer[key].item
    }
}

} // verus!
