//! Counts of the nodes of a tree by the place of their cubes. A tree has no more nodes below
//! a node than it has keys, which bounds the nodes that reading a tree makes.
use vstd::prelude::*;
use crate::arena::cube_inside;
use crate::semantics::lemma_inside_one_child;
use crate::spatial::Cube;
use crate::tree::{lemma_node_size, lemma_power_of_two_positive, Contree};
use crate::types::VoxelData;

verus! {

impl<T: VoxelData> Contree<T> {
    /// The key names a node whose cube lies inside the region.
    pub open spec fn lies_inside(&self, key: int, region: Cube) -> bool {
        self.nodes.valid(key) && cube_inside(self.node_bounds@[key], region)
    }

    /// The key names a node whose cube lies inside the region and is smaller than it.
    pub open spec fn lies_below(&self, key: int, region: Cube) -> bool {
        self.lies_inside(key, region) && self.node_bounds@[key].size < region.size
    }

    /// The number of the nodes, among the first `n` keys, whose cubes lie inside the region.
    pub open spec fn inside_count(&self, n: int, region: Cube) -> int
        decreases n,
    {
        if n <= 0 {
            0
        } else {
            self.inside_count(n - 1, region) + (if self.lies_inside(n - 1, region) {
                1int
            } else {
                0int
            })
        }
    }

    /// The number of the nodes, among the first `n` keys, whose cubes lie inside the region
    /// and are smaller than it.
    pub open spec fn below_count(&self, n: int, region: Cube) -> int
        decreases n,
    {
        if n <= 0 {
            0
        } else {
            self.below_count(n - 1, region) + (if self.lies_below(n - 1, region) {
                1int
            } else {
                0int
            })
        }
    }

    /// The number of the sectants of the region, from the given one on, in whose cube the
    /// cube of the node lies.
    pub open spec fn sectants_holding(&self, key: int, region: Cube, from: int) -> int
        decreases 64 - from,
    {
        if from >= 64 || from < 0 {
            0
        } else {
            self.sectants_holding(key, region, from + 1) + (if self.lies_inside(
                key,
                region.child_cube(from),
            ) {
                1int
            } else {
                0int
            })
        }
    }

    /// The sum, over the sectants of the region from the given one on, of the numbers of the
    /// nodes, among the first `n` keys, whose cubes lie inside the cube of the sectant.
    pub open spec fn sectants_count(&self, n: int, region: Cube, from: int) -> int
        decreases 64 - from,
    {
        if from >= 64 || from < 0 {
            0
        } else {
            self.sectants_count(n, region, from + 1) + self.inside_count(
                n,
                region.child_cube(from),
            )
        }
    }

    /// The counts are not negative, and no larger than the number of keys counted.
    pub proof fn lemma_counts_bounds(&self, n: int, region: Cube)
        requires
            0 <= n,
        ensures
            0 <= self.below_count(n, region) <= self.inside_count(n, region) <= n,
        decreases n,
    {
        if n > 0 {
            self.lemma_counts_bounds(n - 1, region);
        }
    }

    /// The sum over the sectants is not negative.
    pub proof fn lemma_sectants_count_bounds(&self, n: int, region: Cube, from: int)
        requires
            0 <= n,
        ensures
            0 <= self.sectants_count(n, region, from),
        decreases 64 - from,
    {
        if 0 <= from < 64 {
            self.lemma_sectants_count_bounds(n, region, from + 1);
            self.lemma_counts_bounds(n, region.child_cube(from));
        }
    }

    /// A node whose cube is the region is counted inside the region, and not below it.
    pub proof fn lemma_counted_itself(&self, n: int, region: Cube, key: int)
        requires
            0 <= key < n,
            self.nodes.valid(key),
            self.node_bounds@[key] == region,
        ensures
            self.inside_count(n, region) >= 1 + self.below_count(n, region),
        decreases n,
    {
        if n - 1 == key {
            self.lemma_counts_bounds(n - 1, region);
        } else {
            self.lemma_counted_itself(n - 1, region, key);
        }
    }

    /// The cube of a node lies in the cube of one sectant of a region at most, and then it
    /// lies below the region.
    pub proof fn lemma_sectants_holding(&self, key: int, region: Cube, from: int)
        requires
            self.wf(),
            self.bounds_ok(region),
            region.size > 4 * self.dim(),
            0 <= from <= 64,
        ensures
            0 <= self.sectants_holding(key, region, from) <= 1,
            self.sectants_holding(key, region, from) == 1 ==> self.lies_below(key, region)
                && exists|s: int|
                from <= s < 64 && #[trigger] self.lies_inside(key, region.child_cube(s)),
        decreases 64 - from,
    {
        if from < 64 {
            self.lemma_sectants_holding(key, region, from + 1);
            lemma_power_of_two_positive(self.dim());
            lemma_node_size(region.size as int, self.dim());
            if self.lies_inside(key, region.child_cube(from)) {
                assert(self.node_ok(key));
                lemma_node_size(self.node_bounds@[key].size as int, self.dim());
                if self.sectants_holding(key, region, from + 1) == 1 {
                    let s = choose|s: int|
                        from + 1 <= s < 64 && #[trigger] self.lies_inside(
                            key,
                            region.child_cube(s),
                        );
                    lemma_inside_one_child(region, self.node_bounds@[key], from, s);
                }
                assert(from <= from < 64 && self.lies_inside(key, region.child_cube(from)));
                self.lemma_child_bounds_ok(region, from);
            } else if self.sectants_holding(key, region, from + 1) == 1 {
                let s = choose|s: int|
                    from + 1 <= s < 64 && #[trigger] self.lies_inside(key, region.child_cube(s));
                assert(from <= s < 64 && self.lies_inside(key, region.child_cube(s)));
            }
        }
    }

    /// The sum over the sectants grows with one key more by the number of the sectants
    /// that hold the cube of the node of that key.
    pub proof fn lemma_sectants_count_step(&self, n: int, region: Cube, from: int)
        requires
            0 <= n,
            0 <= from <= 64,
        ensures
            self.sectants_count(n + 1, region, from) == self.sectants_count(n, region, from)
                + self.sectants_holding(n, region, from),
        decreases 64 - from,
    {
        if from < 64 {
            self.lemma_sectants_count_step(n, region, from + 1);
        }
    }

    /// The nodes below a region are at least as many as the nodes inside the cubes of its
    /// sectants, taken together.
    pub proof fn lemma_below_holds_sectants(&self, n: int, region: Cube)
        requires
            self.wf(),
            self.bounds_ok(region),
            region.size > 4 * self.dim(),
            0 <= n,
        ensures
            self.sectants_count(n, region, 0) <= self.below_count(n, region),
        decreases n,
    {
        if n > 0 {
            self.lemma_below_holds_sectants(n - 1, region);
            self.lemma_sectants_count_step(n - 1, region, 0);
            self.lemma_sectants_holding(n - 1, region, 0);
        } else {
            self.lemma_sectants_count_none(region, 0);
        }
    }

    /// What the counts tell of one sectant of a divided node: the sum over the sectants from
    /// that one on holds the count of its cube; and a child in the sectant is counted inside
    /// the cube, and not below it.
    pub proof fn lemma_sectant_budget(&self, key: int, sectant: int)
        requires
            self.wf(),
            self.nodes.valid(key),
            self.nodes.item(key) is Internal,
            0 <= sectant < 64,
        ensures
            self.sectants_count(
                self.nodes.slots() as int,
                self.node_bounds@[key],
                sectant,
            ) == self.sectants_count(
                self.nodes.slots() as int,
                self.node_bounds@[key],
                sectant + 1,
            ) + self.inside_count(
                self.nodes.slots() as int,
                self.node_bounds@[key].child_cube(sectant),
            ),
            0 <= self.sectants_count(
                self.nodes.slots() as int,
                self.node_bounds@[key],
                sectant + 1,
            ),
            0 <= self.below_count(
                self.nodes.slots() as int,
                self.node_bounds@[key].child_cube(sectant),
            ) <= self.inside_count(
                self.nodes.slots() as int,
                self.node_bounds@[key].child_cube(sectant),
            ),
            self.nodes.valid(self.node_children[key].child_key(sectant)) ==> self.inside_count(
                self.nodes.slots() as int,
                self.node_bounds@[key].child_cube(sectant),
            ) >= 1 + self.below_count(
                self.nodes.slots() as int,
                self.node_bounds@[key].child_cube(sectant),
            ),
            self.sectants_count(self.nodes.slots() as int, self.node_bounds@[key], 0)
                <= self.below_count(self.nodes.slots() as int, self.node_bounds@[key]),
            0 <= self.below_count(self.nodes.slots() as int, self.node_bounds@[key]),
    {
        let n = self.nodes.slots() as int;
        let region = self.node_bounds@[key];
        let cube = region.child_cube(sectant);
        let given = self.node_children[key].child_key(sectant);
        assert(self.node_ok(key));
        assert(self.link_ok(key, sectant));
        self.lemma_sectants_count_bounds(n, region, sectant + 1);
        self.lemma_counts_bounds(n, cube);
        self.lemma_counts_bounds(n, region);
        self.lemma_below_holds_sectants(n, region);
        if self.nodes.valid(given) {
            self.lemma_counted_itself(n, cube, given);
        }
    }

    /// A tree has keys enough for all the nodes below its root.
    pub proof fn lemma_root_budget(&self)
        requires
            self.wf(),
        ensures
            1 + self.below_count(self.nodes.slots() as int, self.root_cube())
                <= crate::types::EMPTY_MARKER,
    {
        let n = self.nodes.slots() as int;
        self.lemma_counted_itself(n, self.root_cube(), 0);
        self.lemma_counts_bounds(n, self.root_cube());
    }

    /// Among no keys nothing is counted.
    pub proof fn lemma_sectants_count_none(&self, region: Cube, from: int)
        requires
            0 <= from <= 64,
        ensures
            self.sectants_count(0, region, from) == 0,
        decreases 64 - from,
    {
        if from < 64 {
            self.lemma_sectants_count_none(region, from + 1);
        }
    }
}

} // verus!
