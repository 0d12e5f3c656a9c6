//! Simplification of nodes: leaves take their simplest form, and a divided node whose
//! children are all the same becomes a leaf itself.
use vstd::prelude::*;
use crate::arena::cube_inside;
use crate::compaction::{
    content_flat, content_flat_with, content_value, lemma_flat_voxels, lemma_same_content_flat,
    simplified_as, simplify_content,
};
use crate::leaf::same_voxels;
use crate::semantics::lemma_inside_one_child;
use crate::spatial::{lemma_child_cube_contains, Cube};
use crate::tree::{content_voxel, lemma_node_size, lemma_power_of_two_positive, Contree};
use crate::types::{
    PaletteIndexValues, VoxelChildren, VoxelContent, VoxelData, EMPTY_MARKER,
};

verus! {

/// The number is that of one of the sixty-four sectants of a node.
pub open spec fn is_sectant(sectant: int) -> bool {
    0 <= sectant < 64
}

impl<T: VoxelData> Contree<T> {
    /// The subtree of the node shows in the other tree what it shows in this tree.
    pub open spec fn voxels_kept(&self, after: &Self, key: int, region: Cube) -> bool {
        forall|x: int, y: int, z: int|
            region.contains_point(x, y, z) ==> #[trigger] after.voxel_in(key, region, x, y, z)
                == self.voxel_in(key, region, x, y, z)
    }

    /// The two keys name no node, or they name nodes with contents of the same kind and
    /// bricks.
    pub open spec fn same_nodes(&self, left: int, right: int) -> bool {
        if self.nodes.valid(left) && self.nodes.valid(right) {
            self.nodes.item(left).same_as(&self.nodes.item(right))
        } else {
            !self.nodes.valid(left) && !self.nodes.valid(right)
        }
    }

    /// Tells whether the two keys name no node, or name nodes with contents of the same kind
    /// and bricks.
    pub fn compare_nodes(&self, node_key_left: usize, node_key_right: usize) -> (r: bool)
        ensures
            r == self.same_nodes(node_key_left as int, node_key_right as int),
    {
        let is_left_valid: bool = self.nodes.key_is_valid(node_key_left);
        let is_right_valid: bool = self.nodes.key_is_valid(node_key_right);
        if is_left_valid && is_right_valid {
            self.nodes.get(node_key_left).compare(self.nodes.get(node_key_right))
        } else {
            !is_left_valid && !is_right_valid
        }
    }

    /// Simplifies a node that is not divided. The node shows the same values afterwards.
    /// Returns true if the node was simplified.
    pub fn simplify_leaf_node(&mut self, node_key: usize) -> (simplified: bool)
        requires
            old(self).wf(),
            old(self).nodes.valid(node_key as int),
            !(old(self).nodes.item(node_key as int) is Internal),
        ensures
            final(self).wf(),
            final(self).nodes.slots() == old(self).nodes.slots(),
            old(self).changed_node(final(self), node_key as int),
            old(self).changed_inside(final(self), old(self).node_bounds@[node_key as int]),
            !(final(self).nodes.item(node_key as int) is Internal),
            old(self).voxels_kept(
                final(self),
                node_key as int,
                old(self).node_bounds@[node_key as int],
            ),
            same_voxels(
                final(self).nodes.item(node_key as int),
                old(self).nodes.item(node_key as int),
                old(self).node_bounds@[node_key as int],
                old(self).dim(),
            ),
            simplified_as(
                old(self).nodes.item(node_key as int),
                old(self).dim(),
                final(self).nodes.item(node_key as int),
                simplified,
            ),
    {
        let ghost region = self.node_bounds@[node_key as int];
        proof {
            self.lemma_update_palettes_ok(EMPTY_MARKER);
            assert(self.node_ok(node_key as int));
            lemma_node_size(region.size as int, self.dim());
        }
        let content: VoxelContent = self.take_content(node_key);
        let ghost taken = *self;
        let result: (VoxelContent, bool) = simplify_content(
            content,
            self.chunk_dim,
            &self.voxel_color_palette,
            &self.voxel_data_palette,
            Ghost(region),
        );
        self.put_content(node_key, result.0);
        proof {
            old(self).lemma_changed_inside_trans(&taken, self, region, region);
            old(self).lemma_changed_node_trans(&taken, self, node_key as int);
            assert forall|x: int, y: int, z: int|
                region.contains_point(x, y, z) implies #[trigger] self.voxel_in(
                node_key as int,
                region,
                x,
                y,
                z,
            ) == old(self).voxel_in(node_key as int, region, x, y, z) by {
                self.lemma_voxel_of_leaf(node_key as int, region, x, y, z);
                old(self).lemma_voxel_of_leaf(node_key as int, region, x, y, z);
                assert(content_voxel(result.0, region, self.dim(), x, y, z) == content_voxel(
                    content,
                    region,
                    self.dim(),
                    x,
                    y,
                    z,
                ));
            }
        }
        result.1
    }

    /// The key names no child of the node.
    pub open spec fn no_child_of(&self, key: int, other: int) -> bool {
        forall|sectant: int|
            0 <= sectant < 64 ==> self.node_children[key].child_key(sectant) != other
    }

    /// All sixty-four children of the node are nodes that are not divided, with contents of
    /// the same kind and bricks as the first.
    pub open spec fn children_alike(&self, key: int) -> bool {
        forall|sectant: int|
            0 <= sectant < 64 ==> {
                let child = #[trigger] self.node_children[key].child_key(sectant);
                &&& self.nodes.valid(child)
                &&& self.nodes.item(self.node_children[key].child_key(0)).same_as(
                    &self.nodes.item(child),
                )
            }
    }

    /// Makes a divided node, whose sixty-four children are all the same, the leaf that its
    /// first child was, and frees the children. Each sectant of the node shows afterwards what
    /// the whole of a child showed; where all voxels of the children held one value, the
    /// node shows the same values as before.
    pub fn merge_children(&mut self, node_key: usize)
        requires
            old(self).wf(),
            old(self).nodes.valid(node_key as int),
            old(self).nodes.item(node_key as int) is Internal,
            old(self).children_alike(node_key as int),
        ensures
            final(self).wf(),
            final(self).nodes.slots() == old(self).nodes.slots(),
            final(self).nodes.valid(node_key as int),
            final(self).node_bounds@[node_key as int] == old(self).node_bounds@[node_key as int],
            final(self).node_parents@[node_key as int] == old(self).node_parents@[node_key as int],
            old(self).changed_inside(final(self), old(self).node_bounds@[node_key as int]),
            final(self).nodes.item(node_key as int) == old(self).nodes.item(
                old(self).node_children[node_key as int].child_key(0),
            ),
            !(final(self).nodes.item(node_key as int) is Internal),
            forall|s: int|
                0 <= s < 64 ==> !final(self).nodes.valid(
                    #[trigger] old(self).node_children[node_key as int].child_key(s),
                ),
            forall|other: int|
                old(self).nodes.valid(other) && other != node_key && old(self).no_child_of(
                    node_key as int,
                    other,
                ) ==> #[trigger] old(self).same_node_in(final(self), other),
            content_flat(final(self).nodes.item(node_key as int)) ==> old(self).voxels_kept(
                final(self),
                node_key as int,
                old(self).node_bounds@[node_key as int],
            ),
    {
        let ghost region = self.node_bounds@[node_key as int];
        let ghost hangs = self.node_parents@[node_key as int];
        let ghost dim = self.dim();
        proof {
            assert(self.node_ok(node_key as int));
            lemma_power_of_two_positive(dim);
            lemma_node_size(region.size as int, dim);
            self.lemma_changed_inside_refl(region);
            assert(self.link_ok(node_key as int, 0));
            self.lemma_child_bounds_ok(region, 0);
        }
        let first_child: usize = self.node_children[node_key].child(0);
        assert(self.nodes.valid(first_child as int));
        assert(self.node_ok(first_child as int));
        let ghost before_take = *self;
        let content: VoxelContent = self.take_content(first_child);
        proof {
            old(self).lemma_changed_inside_trans(&before_take, self, region.child_cube(0), region);
            assert(old(self).same_node_in(self, node_key as int));
        }
        let ghost taken = *self;
        proof {
            assert forall|s: int| 0 <= s < 64 implies !(self.nodes.item(
                #[trigger] old(self).node_children[node_key as int].child_key(s),
            ) is Internal) by {
                let child = old(self).node_children[node_key as int].child_key(s);
                assert(old(self).nodes.valid(child));
                assert(old(self).nodes.item(first_child as int).same_as(
                    &old(self).nodes.item(child),
                ));
                if child != first_child {
                    assert(before_take.same_node_in(self, child));
                }
            }
        }
        let mut sectant: u8 = 0;
        while sectant < 64
            invariant
                sectant <= 64,
                self.wf(),
                self.nodes.slots() == old(self).nodes.slots(),
                dim == self.dim(),
                dim >= 1,
                self.nodes.valid(node_key as int),
                self.node_bounds@[node_key as int] == region,
                self.node_parents@[node_key as int] == hangs,
                region == old(self).node_bounds@[node_key as int],
                old(self).changed_inside(self, region),
                old(self).nodes.valid(node_key as int),
                old(self).children_alike(node_key as int),
                old(self).wf(),
                old(self).nodes.item(node_key as int) is Internal,
                sectant < 64 ==> self.nodes.item(node_key as int) is Internal,
                self.nodes.item(node_key as int) is Internal || self.nodes.item(
                    node_key as int,
                ) is Nothing,
                self.nodes.item(node_key as int) is Internal ==> forall|s: int|
                    0 <= s < 64 ==> self.node_children[node_key as int].child_key(s) == (if s
                        < sectant {
                        EMPTY_MARKER as int
                    } else {
                        old(self).node_children[node_key as int].child_key(s)
                    }),
                forall|s: int|
                    sectant <= s < 64 ==> !(self.nodes.item(
                        #[trigger] old(self).node_children[node_key as int].child_key(s),
                    ) is Internal),
                forall|s: int|
                    0 <= s < sectant ==> !self.nodes.valid(
                        #[trigger] old(self).node_children[node_key as int].child_key(s),
                    ),
                forall|other: int|
                    old(self).nodes.valid(other) && other != node_key && old(self).no_child_of(
                        node_key as int,
                        other,
                    ) ==> #[trigger] old(self).same_node_in(self, other),
            decreases 64 - sectant,
        {
            let ghost before = *self;
            proof {
                assert(self.node_ok(node_key as int));
                let child = old(self).node_children[node_key as int].child_key(sectant as int);
                assert(old(self).nodes.valid(child));
                assert(child != EMPTY_MARKER);
                assert(self.node_children[node_key as int].child_key(sectant as int) == child);
            }
            self.free_child(node_key, sectant);
            proof {
                old(self).lemma_changed_inside_trans(&before, self, region, region);
                assert forall|s: int| sectant + 1 <= s < 64 implies !(self.nodes.item(
                    #[trigger] old(self).node_children[node_key as int].child_key(s),
                ) is Internal) by {
                    let child = old(self).node_children[node_key as int].child_key(s);
                    let freed = old(self).node_children[node_key as int].child_key(sectant as int);
                    assert(before.link_ok(node_key as int, s));
                    assert(before.link_ok(node_key as int, sectant as int));
                    assert(before.node_children[node_key as int].child_key(s) == child);
                    assert(child != freed);
                    assert(child != node_key);
                    assert(before.same_node_in(self, child));
                }
                assert forall|other: int|
                    old(self).nodes.valid(other) && other != node_key && old(self).no_child_of(
                        node_key as int,
                        other,
                    ) implies #[trigger] old(self).same_node_in(self, other) by {
                    assert(old(self).same_node_in(&before, other));
                    assert(old(self).node_children[node_key as int].child_key(sectant as int)
                        != other);
                    assert(before.same_node_in(self, other));
                }
                if sectant + 1 < 64 {
                    // a child is left, so the node is divided still
                    assert(old(self).nodes.valid(
                        old(self).node_children[node_key as int].child_key(sectant + 1),
                    ));
                    assert(before.node_children[node_key as int].child_key(sectant + 1)
                        != EMPTY_MARKER);
                }
            }
            sectant += 1;
        }
        let still_divided: bool = match self.nodes.get(node_key) {
            VoxelContent::Internal(_) => true,
            _ => false,
        };
        if still_divided {
            let ghost before = *self;
            self.clear_internal(node_key);
            proof {
                old(self).lemma_changed_inside_trans(&before, self, region, region);
                assert forall|other: int|
                    old(self).nodes.valid(other) && other != node_key && old(self).no_child_of(
                        node_key as int,
                        other,
                    ) implies #[trigger] old(self).same_node_in(self, other) by {
                    assert(old(self).same_node_in(&before, other));
                    assert(before.same_node_in(self, other));
                }
            }
        }
        let ghost before = *self;
        proof {
            assert(before_take.node_ok(first_child as int));
        }
        self.put_content(node_key, content);
        proof {
            old(self).lemma_changed_inside_trans(&before, self, region, region);
            assert forall|other: int|
                old(self).nodes.valid(other) && other != node_key && old(self).no_child_of(
                    node_key as int,
                    other,
                ) implies #[trigger] old(self).same_node_in(self, other) by {
                assert(old(self).same_node_in(&before, other));
                assert(before.same_node_in(self, other));
            }
            if content_flat(content) {
                let value = choose|value: PaletteIndexValues| content_flat_with(content, value);
                assert forall|x: int, y: int, z: int|
                    region.contains_point(x, y, z) implies #[trigger] self.voxel_in(
                    node_key as int,
                    region,
                    x,
                    y,
                    z,
                ) == old(self).voxel_in(node_key as int, region, x, y, z) by {
                    lemma_child_cube_contains(region, x, y, z);
                    let s = region.sectant_of(x, y, z);
                    let child = old(self).node_children[node_key as int].child_key(s);
                    assert(old(self).nodes.valid(child));
                    assert(old(self).link_ok(node_key as int, s));
                    assert(old(self).node_ok(child));
                    assert(old(self).node_ok(first_child as int));
                    old(self).lemma_child_bounds_ok(region, s);
                    lemma_node_size(region.child_cube(s).size as int, dim);
                    old(self).lemma_voxel_of_internal(node_key as int, region, x, y, z);
                    old(self).lemma_voxel_of_leaf(child, region.child_cube(s), x, y, z);
                    lemma_same_content_flat(content, old(self).nodes.item(child), value);
                    lemma_flat_voxels(
                        old(self).nodes.item(child),
                        value,
                        region.child_cube(s),
                        dim,
                        x,
                        y,
                        z,
                    );
                    self.lemma_voxel_of_leaf(node_key as int, region, x, y, z);
                    lemma_flat_voxels(content, value, region, dim, x, y, z);
                }
            }
        }
    }

    /// Tells whether all sixty-four children of the divided node are nodes, with contents of
    /// the same kind and bricks.
    pub fn all_children_alike(&self, node_key: usize) -> (r: bool)
        requires
            self.wf(),
            self.nodes.valid(node_key as int),
            self.nodes.item(node_key as int) is Internal,
        ensures
            r == (self.nodes.valid(self.node_children[node_key as int].child_key(0)) && forall|
                s: int,
            |
                1 <= s < 64 ==> #[trigger] self.same_nodes(
                    self.node_children[node_key as int].child_key(0),
                    self.node_children[node_key as int].child_key(s),
                )),
            r == self.children_alike(node_key as int),
    {
        assert(self.node_ok(node_key as int));
        let first_child: usize = self.node_children[node_key].child(0);
        if !self.nodes.key_is_valid(first_child) {
            assert(!self.nodes.valid(self.node_children[node_key as int].child_key(0)));
            return false;
        }
        let mut sectant: u8 = 1;
        while sectant < 64
            invariant
                1 <= sectant <= 64,
                node_key < self.node_children.len(),
                self.nodes.valid(first_child as int),
                first_child == self.node_children[node_key as int].child_key(0),
                forall|s: int|
                    1 <= s < sectant ==> #[trigger] self.same_nodes(
                        first_child as int,
                        self.node_children[node_key as int].child_key(s),
                    ),
            decreases 64 - sectant,
        {
            let child: usize = self.node_children[node_key].child(sectant);
            if !self.compare_nodes(first_child, child) {
                assert(!self.same_nodes(
                    first_child as int,
                    self.node_children[node_key as int].child_key(sectant as int),
                ));
                return false;
            }
            sectant += 1;
        }
        proof {
            assert(self.same_nodes(
                first_child as int,
                self.node_children[node_key as int].child_key(1),
            ));
            Self::lemma_same_as_itself(self.nodes.item(first_child as int));
            assert forall|s: int| 0 <= s < 64 implies {
                let child = #[trigger] self.node_children[node_key as int].child_key(s);
                &&& self.nodes.valid(child)
                &&& self.nodes.item(self.node_children[node_key as int].child_key(0)).same_as(
                    &self.nodes.item(child),
                )
            } by {
                if s >= 1 {
                    assert(self.same_nodes(
                        first_child as int,
                        self.node_children[node_key as int].child_key(s),
                    ));
                }
            }
        }
        true
    }

    /// A content that is not that of a divided node is of the same kind and bricks as itself.
    pub proof fn lemma_same_as_itself(content: VoxelContent)
        requires
            !(content is Internal),
        ensures
            content.same_as(&content),
    {
        match content {
            VoxelContent::Leaf(bricks) => {
                assert forall|s: int| 0 <= s < bricks.len() implies (#[trigger] bricks[s]).same_as(
                    &bricks[s],
                ) by {}
            },
            _ => {},
        }
    }

    /// The divided node has no children: its occupancy bitmap is zero, or it keeps no keys of
    /// children.
    pub open spec fn without_children(&self, key: int) -> bool {
        self.nodes.item(key) == VoxelContent::Internal(0)
            || !(self.node_children[key] is Children)
    }

    /// The other tree is this tree after the simplification of the node itself:
    /// - a key that names no node changes nothing, and nothing counts as simplified;
    /// - a node that is not divided has the simplest form of its content;
    /// - a divided node without children holds nothing afterwards;
    /// - a divided node whose sixty-four children are all the same, and hold one value at
    ///   every voxel, has the content of its first child afterwards, and its children are
    ///   nodes no longer;
    /// - any other divided node stays as it is, and does not count as simplified.
    pub open spec fn node_simplified(&self, after: &Self, key: int, simplified: bool) -> bool {
        if !self.nodes.valid(key) {
            !simplified && *after == *self
        } else if self.nodes.item(key) is Internal {
            if self.without_children(key) {
                simplified && after.nodes.item(key) is Nothing
            } else if self.children_alike(key) && content_flat(
                self.nodes.item(self.node_children[key].child_key(0)),
            ) {
                &&& simplified
                &&& after.nodes.item(key) == self.nodes.item(self.node_children[key].child_key(0))
                &&& forall|s: int|
                    0 <= s < 64 ==> !after.nodes.valid(
                        #[trigger] self.node_children[key].child_key(s),
                    )
            } else {
                !simplified && *after == *self
            }
        } else {
            simplified_as(
                self.nodes.item(key),
                self.dim(),
                after.nodes.item(key),
                simplified,
            )
        }
    }

    /// The trees are sixty-five, and the first of them is this tree.
    pub open spec fn steps_of(&self, steps: Seq<Self>) -> bool {
        steps.len() == 65 && steps[0] == *self
    }

    /// One step of the simplification of the children of a divided node: the tree after the
    /// step is the tree before it with the child in the given sectant simplified, together
    /// with all that is below the child; where the sectant has no child, the step changes
    /// nothing.
    pub open spec fn child_simplified(&self, steps: Seq<Self>, key: int, sectant: int) -> bool
        decreases self.node_bounds@[key].size, 0int,
    {
        let child = self.node_children[key].child_key(sectant);
        if steps[sectant].nodes.valid(child) {
            &&& steps[sectant].node_bounds@[child].size < self.node_bounds@[key].size
            &&& (steps[sectant].simplified_from(&steps[sectant + 1], child, true, true)
                || steps[sectant].simplified_from(&steps[sectant + 1], child, true, false))
        } else {
            steps[sectant + 1] == steps[sectant]
        }
    }

    /// The other tree is this tree after the simplification of the node. Without
    /// `recursive` the node itself is simplified. With it, and for a divided node with
    /// children, the children are simplified first, sectant by sectant and each together
    /// with all that is below it, and then the node itself.
    pub open spec fn simplified_from(
        &self,
        after: &Self,
        key: int,
        recursive: bool,
        simplified: bool,
    ) -> bool
        decreases self.node_bounds@[key].size, 1int,
    {
        if recursive && self.nodes.valid(key) && self.nodes.item(key) is Internal
            && !self.without_children(key) {
            exists|steps: Seq<Self>|
                {
                    &&& #[trigger] self.steps_of(steps)
                    &&& forall|sectant: int| #[trigger]
                        is_sectant(sectant) ==> self.child_simplified(steps, key, sectant)
                    &&& steps[64].node_simplified(after, key, simplified)
                }
        } else {
            self.node_simplified(after, key, simplified)
        }
    }

    /// Updates the given node to its simplest form: a leaf is simplified as its content
    /// allows; a divided node without children becomes a node that holds nothing; and a
    /// divided node whose sixty-four children are all the same, contents of the same kind and
    /// bricks that hold one value at every voxel, becomes the leaf that its first child was,
    /// and its children are freed. With `recursive` the children of a divided node are
    /// simplified first.
    ///
    /// The node shows the same values afterwards at every position.
    ///
    /// Returns true if the node was simplified; false for a key that names no node.
    pub fn simplify(&mut self, node_key: usize, recursive: bool) -> (simplified: bool)
        requires
            old(self).wf(),
        ensures
            final(self).wf(),
            final(self).nodes.slots() == old(self).nodes.slots(),
            // the tree shows at every position what it showed before
            old(self).same_voxels_as(final(self)),
            forall|x: int, y: int, z: int| #[trigger]
                final(self).entry_at(x, y, z) == old(self).entry_at(x, y, z),
            old(self).simplified_from(final(self), node_key as int, recursive, simplified),
            !old(self).nodes.valid(node_key as int) ==> !simplified && *final(self) == *old(self),
            old(self).nodes.valid(node_key as int) ==> {
                &&& final(self).nodes.valid(node_key as int)
                &&& final(self).node_bounds@[node_key as int]
                    == old(self).node_bounds@[node_key as int]
                &&& final(self).node_parents@[node_key as int]
                    == old(self).node_parents@[node_key as int]
                &&& old(self).changed_inside(
                    final(self),
                    old(self).node_bounds@[node_key as int],
                )
                &&& old(self).voxels_kept(
                    final(self),
                    node_key as int,
                    old(self).node_bounds@[node_key as int],
                )
                &&& !(old(self).nodes.item(node_key as int) is Internal)
                    ==> old(self).changed_node(final(self), node_key as int)
                    && !(final(self).nodes.item(
                    node_key as int,
                ) is Internal)
                &&& old(self).nodes.item(node_key as int) is Internal ==> (simplified <==> !(
                final(self).nodes.item(node_key as int) is Internal))
                &&& (old(self).nodes.item(node_key as int) is Internal && !recursive
                    && !simplified) ==> *final(self) == *old(self)
                &&& !recursive ==> forall|other: int|
                    old(self).nodes.valid(other) && other != node_key && old(self).no_child_of(
                        node_key as int,
                        other,
                    ) ==> #[trigger] old(self).same_node_in(final(self), other)
                &&& (old(self).nodes.item(node_key as int) is Internal && !recursive
                    && simplified) ==> (forall|sectant: int|
                    0 <= sectant < 64 ==> old(self).node_children[node_key as int].child_key(
                        sectant,
                    ) == EMPTY_MARKER) || (old(self).children_alike(node_key as int)
                        && final(self).nodes.item(node_key as int) == old(self).nodes.item(
                    old(self).node_children[node_key as int].child_key(0),
                ))
            },
        decreases
                (if old(self).nodes.valid(node_key as int) {
                    old(self).node_bounds@[node_key as int].size as int
                } else {
                    0
                }),
    {
        if !self.nodes.key_is_valid(node_key) {
            // a key that names no node can not be simplified
            return false;
        }
        let ghost region = self.node_bounds@[node_key as int];
        let ghost hangs = self.node_parents@[node_key as int];
        let ghost dim = self.dim();
        proof {
            assert(self.node_ok(node_key as int));
            lemma_power_of_two_positive(dim);
            lemma_node_size(region.size as int, dim);
            self.lemma_changed_inside_refl(region);
        }
        let is_divided: bool = match self.nodes.get(node_key) {
            VoxelContent::Internal(_) => true,
            _ => false,
        };
        if !is_divided {
            let simplified: bool = self.simplify_leaf_node(node_key);
            proof {
                old(self).lemma_simplified_shows_same(self, node_key as int);
            }
            return simplified;
        }
        let occupied_bits: u64 = self.stored_occupied_bits(node_key);
        let keeps_keys: bool = match self.node_children[node_key] {
            VoxelChildren::Children(_) => true,
            _ => false,
        };
        if 0 == occupied_bits || !keeps_keys {
            proof {
                assert forall|sectant: int| 0 <= sectant < 64 implies self.node_children[node_key as int].child_key(
                    sectant,
                ) == EMPTY_MARKER by {
                    crate::bitmap::lemma_constant_bitmaps(sectant);
                }
            }
            self.clear_internal(node_key);
            proof {
                assert forall|x: int, y: int, z: int|
                    region.contains_point(x, y, z) implies #[trigger] self.voxel_in(
                    node_key as int,
                    region,
                    x,
                    y,
                    z,
                ) == old(self).voxel_in(node_key as int, region, x, y, z) by {
                    lemma_child_cube_contains(region, x, y, z);
                    old(self).lemma_voxel_of_internal(node_key as int, region, x, y, z);
                    assert(old(self).voxel_in(
                        EMPTY_MARKER as int,
                        region.child_cube(region.sectant_of(x, y, z)),
                        x,
                        y,
                        z,
                    ) == EMPTY_MARKER);
                }
            }
            proof {
                old(self).lemma_simplified_shows_same(self, node_key as int);
            }
            return true;
        }
        let child_keys: [u32; 64] = match self.node_children[node_key] {
            VoxelChildren::Children(children) => children,
            _ => {
                proof {
                    old(self).lemma_simplified_shows_same(self, node_key as int);
                }
                return false;
            },
        };
        // try to simplify each child of the node
        let ghost mut steps: Seq<Self> = Seq::empty().push(*self);
        if recursive {
            let mut sectant: u8 = 0;
            while sectant < 64
                invariant
                    sectant <= 64,
                    steps.len() == sectant + 1,
                    steps[0] == *old(self),
                    steps[sectant as int] == *self,
                    forall|s: int|
                        0 <= s < sectant ==> #[trigger] old(self).child_simplified(
                            steps,
                            node_key as int,
                            s,
                        ),
                    self.wf(),
                    self.nodes.slots() == old(self).nodes.slots(),
                    old(self).wf(),
                    dim == self.dim(),
                    dim == old(self).dim(),
                    dim >= 1,
                    old(self).nodes.valid(node_key as int),
                    self.nodes.valid(node_key as int),
                    self.nodes.item(node_key as int) == old(self).nodes.item(node_key as int),
                    self.nodes.item(node_key as int) is Internal,
                    self.node_children[node_key as int] == old(self).node_children[node_key as int],
                    self.node_children[node_key as int] == VoxelChildren::Children(child_keys),
                    self.node_bounds@[node_key as int] == region,
                    self.node_parents@[node_key as int] == hangs,
                    region == old(self).node_bounds@[node_key as int],
                    region.size % 4 == 0,
                    region.size >= 4,
                    region.size > 4 * dim,
                    region.wf(),
                    old(self).changed_inside(self, region),
                    old(self).voxels_kept(self, node_key as int, region),
                decreases 64 - sectant,
            {
                let ghost before = *self;
                let ghost steps_before = steps;
                let child: usize = child_keys[sectant as usize] as usize;
                if self.nodes.key_is_valid(child) {
                    let ghost cube = region.child_cube(sectant as int);
                    proof {
                        assert(self.node_ok(node_key as int));
                        assert(self.link_ok(node_key as int, sectant as int));
                        self.lemma_child_bounds_ok(region, sectant as int);
                    }
                    let child_simplified: bool = self.simplify(child, true);
                    proof {
                        assert(!cube_inside(region, cube));
                        assert(before.same_node_in(self, node_key as int));
                        old(self).lemma_changed_inside_trans(&before, self, cube, region);
                        assert forall|x: int, y: int, z: int|
                            region.contains_point(x, y, z) implies #[trigger] self.voxel_in(
                            node_key as int,
                            region,
                            x,
                            y,
                            z,
                        ) == old(self).voxel_in(node_key as int, region, x, y, z) by {
                            assert(before.voxel_in(node_key as int, region, x, y, z)
                                == old(self).voxel_in(node_key as int, region, x, y, z));
                            before.lemma_step_kept(
                                self,
                                node_key as int,
                                sectant as int,
                                x,
                                y,
                                z,
                            );
                        }
                    }
                }
                proof {
                    steps = steps.push(*self);
                    assert(before.nodes.valid(child as int) ==> before.simplified_from(
                        self,
                        child as int,
                        true,
                        true,
                    ) || before.simplified_from(self, child as int, true, false));
                    assert(before.nodes.valid(child as int)
                        ==> before.node_bounds@[child as int].size
                        < region.size) by {
                        if before.nodes.valid(child as int) {
                            assert(before.node_ok(node_key as int));
                            assert(before.link_ok(node_key as int, sectant as int));
                            before.lemma_child_bounds_ok(region, sectant as int);
                        }
                    }
                    assert(steps[sectant as int] == before);
                    assert(steps[sectant + 1] == *self);
                    assert(old(self).child_simplified(steps, node_key as int, sectant as int));
                    assert forall|s: int| 0 <= s < sectant implies #[trigger] old(self).child_simplified(steps, node_key as int, s) by {
                        assert(old(self).child_simplified(steps_before, node_key as int, s));
                        assert(steps[s] == steps_before[s]);
                        assert(steps[s + 1] == steps_before[s + 1]);
                    }
                }
                sectant += 1;
            }
        }
        let ghost simplified_below = *self;
        let first_child: usize = child_keys[0] as usize;
        proof {
            if recursive {
                assert(steps[64] == simplified_below);
                assert(old(self).steps_of(steps));
                assert forall|s: int| #[trigger] is_sectant(s) implies old(self).child_simplified(
                    steps,
                    node_key as int,
                    s,
                ) by {}
            }
        }
        if !self.all_children_alike(node_key) {
            proof {
                assert(simplified_below.node_simplified(self, node_key as int, false));
            }
            proof {
                old(self).lemma_simplified_shows_same(self, node_key as int);
            }
            return false;
        }
        proof {
            assert(self.node_ok(node_key as int));
            assert(self.link_ok(node_key as int, 0));
            assert(self.nodes.valid(first_child as int));
            assert(self.node_ok(first_child as int));
            assert(crate::node::brick_volume(dim) > 0) by (nonlinear_arith)
                requires
                    dim > 0,
            ;
            assert(self.nodes.item(first_child as int).nonempty());
        }
        let one_value: bool = match content_value(self.nodes.get(first_child)) {
            Some(_) => true,
            None => false,
        };
        if !one_value {
            // children that show more than one value stay: as a leaf the node would show
            // them at a quarter of their resolution
            proof {
                assert(simplified_below.node_simplified(self, node_key as int, false));
            }
            proof {
                old(self).lemma_simplified_shows_same(self, node_key as int);
            }
            return false;
        }
        // all children are the same: the node becomes a leaf, the children are freed
        self.merge_children(node_key);
        proof {
            assert(simplified_below.node_simplified(self, node_key as int, true));
            old(self).lemma_changed_inside_trans(&simplified_below, self, region, region);
            assert forall|x: int, y: int, z: int|
                region.contains_point(x, y, z) implies #[trigger] self.voxel_in(
                node_key as int,
                region,
                x,
                y,
                z,
            ) == old(self).voxel_in(node_key as int, region, x, y, z) by {
                assert(simplified_below.voxel_in(node_key as int, region, x, y, z)
                    == old(self).voxel_in(node_key as int, region, x, y, z));
            }
        }
        proof {
            old(self).lemma_simplified_shows_same(self, node_key as int);
        }
        true
    }

    /// After a change inside the cube of one sectant of a divided node, the node shows at a
    /// position in that sectant what the child of the sectant shows, before the change and
    /// after it, and at any other position what it showed before.
    pub proof fn lemma_step(&self, after: &Self, key: int, sectant: int, x: int, y: int, z: int)
        requires
            self.wf(),
            after.wf(),
            self.nodes.valid(key),
            self.nodes.item(key) is Internal,
            self.same_node_in(after, key),
            0 <= sectant < 64,
            self.node_bounds@[key].contains_point(x, y, z),
            self.changed_inside(after, self.node_bounds@[key].child_cube(sectant)),
        ensures
            0 <= self.node_bounds@[key].sectant_of(x, y, z) < 64,
            self.node_bounds@[key].child_cube(
                self.node_bounds@[key].sectant_of(x, y, z),
            ).contains_point(x, y, z),
            self.node_bounds@[key].sectant_of(x, y, z) == sectant ==> after.voxel_in(
                key,
                self.node_bounds@[key],
                x,
                y,
                z,
            ) == after.voxel_in(
                self.node_children[key].child_key(sectant),
                self.node_bounds@[key].child_cube(sectant),
                x,
                y,
                z,
            ) && self.voxel_in(key, self.node_bounds@[key], x, y, z) == self.voxel_in(
                self.node_children[key].child_key(sectant),
                self.node_bounds@[key].child_cube(sectant),
                x,
                y,
                z,
            ),
            self.node_bounds@[key].sectant_of(x, y, z) != sectant ==> after.voxel_in(
                key,
                self.node_bounds@[key],
                x,
                y,
                z,
            ) == self.voxel_in(key, self.node_bounds@[key], x, y, z),
    {
        let region = self.node_bounds@[key];
        let dim = self.dim();
        assert(self.node_ok(key));
        lemma_power_of_two_positive(dim);
        lemma_node_size(region.size as int, dim);
        lemma_child_cube_contains(region, x, y, z);
        let s = region.sectant_of(x, y, z);
        self.lemma_voxel_of_internal(key, region, x, y, z);
        after.lemma_voxel_of_internal(key, region, x, y, z);
        if s != sectant {
            let other_child = self.node_children[key].child_key(s);
            assert(self.link_ok(key, s));
            assert forall|m: int|
                self.nodes.valid(m) && cube_inside(
                    self.node_bounds@[m],
                    region.child_cube(s),
                ) implies #[trigger] self.same_node_in(after, m) by {
                assert(self.node_ok(m));
                lemma_node_size(self.node_bounds@[m].size as int, dim);
                if cube_inside(self.node_bounds@[m], region.child_cube(sectant)) {
                    lemma_inside_one_child(region, self.node_bounds@[m], s, sectant);
                }
            }
            self.lemma_voxel_frame(after, other_child, region.child_cube(s), x, y, z);
        }
    }

    /// The node `key` is the node `from`, or a node below it: the path from `from`, whose
    /// cube is `bounds`, towards the cube of the node leads to it.
    pub open spec fn reaches(&self, from: int, bounds: Cube, key: int) -> bool
        decreases bounds.size,
    {
        from == key || (self.nodes.valid(from) && self.nodes.item(from) is Internal
            && bounds.size >= 4 && bounds.contains_point(
            self.node_bounds@[key].min_position.x as int,
            self.node_bounds@[key].min_position.y as int,
            self.node_bounds@[key].min_position.z as int,
        ) && self.reaches(
            self.node_children[from].child_key(self.sectant_towards(bounds, key)),
            bounds.child_cube(self.sectant_towards(bounds, key)),
            key,
        ))
    }

    /// The sectant of the cube that holds the corner of the cube of the node.
    pub open spec fn sectant_towards(&self, bounds: Cube, key: int) -> int {
        bounds.sectant_of(
            self.node_bounds@[key].min_position.x as int,
            self.node_bounds@[key].min_position.y as int,
            self.node_bounds@[key].min_position.z as int,
        )
    }

    /// A tree in which a node was changed, and nothing outside of its cube, shows what it
    /// showed before in every node above that node, if the node itself shows what it showed.
    pub proof fn lemma_kept_above(&self, after: &Self, from: int, key: int)
        requires
            self.wf(),
            after.wf(),
            self.nodes.valid(from),
            self.nodes.valid(key),
            self.reaches(from, self.node_bounds@[from], key),
            self.changed_inside(after, self.node_bounds@[key]),
            self.voxels_kept(after, key, self.node_bounds@[key]),
        ensures
            cube_inside(self.node_bounds@[key], self.node_bounds@[from]),
            self.voxels_kept(after, from, self.node_bounds@[from]),
        decreases self.node_bounds@[from].size,
    {
        let bounds = self.node_bounds@[from];
        let region = self.node_bounds@[key];
        if from != key {
            let dim = self.dim();
            assert(self.node_ok(from));
            assert(self.node_ok(key));
            lemma_power_of_two_positive(dim);
            lemma_node_size(bounds.size as int, dim);
            lemma_node_size(region.size as int, dim);
            let sectant = self.sectant_towards(bounds, key);
            let child = self.node_children[from].child_key(sectant);
            lemma_child_cube_contains(
                bounds,
                region.min_position.x as int,
                region.min_position.y as int,
                region.min_position.z as int,
            );
            assert(self.link_ok(from, sectant));
            assert(self.nodes.valid(child)) by {
                reveal_with_fuel(Contree::reaches, 2);
            }
            self.lemma_child_bounds_ok(bounds, sectant);
            self.lemma_kept_above(after, child, key);
            let cube = bounds.child_cube(sectant);
            assert(!cube_inside(bounds, region));
            assert(self.same_node_in(after, from));
            self.lemma_changed_inside_refl(cube);
            self.lemma_changed_inside_trans(self, after, region, cube);
            assert forall|x: int, y: int, z: int|
                bounds.contains_point(x, y, z) implies #[trigger] after.voxel_in(
                from,
                bounds,
                x,
                y,
                z,
            ) == self.voxel_in(from, bounds, x, y, z) by {
                self.lemma_step_kept(after, from, sectant, x, y, z);
            }
        }
    }

    /// The cube of a node that a node reaches lies inside the cube of that node.
    pub proof fn lemma_reached_inside(&self, from: int, key: int)
        requires
            self.wf(),
            self.nodes.valid(from),
            self.nodes.valid(key),
            self.reaches(from, self.node_bounds@[from], key),
        ensures
            cube_inside(self.node_bounds@[key], self.node_bounds@[from]),
        decreases self.node_bounds@[from].size,
    {
        let bounds = self.node_bounds@[from];
        let region = self.node_bounds@[key];
        if from != key {
            let dim = self.dim();
            assert(self.node_ok(from));
            lemma_power_of_two_positive(dim);
            lemma_node_size(bounds.size as int, dim);
            lemma_child_cube_contains(
                bounds,
                region.min_position.x as int,
                region.min_position.y as int,
                region.min_position.z as int,
            );
            let sectant = self.sectant_towards(bounds, key);
            let child = self.node_children[from].child_key(sectant);
            assert(self.link_ok(from, sectant));
            assert(self.nodes.valid(child)) by {
                reveal_with_fuel(Contree::reaches, 2);
            }
            self.lemma_child_bounds_ok(bounds, sectant);
            self.lemma_reached_inside(child, key);
        }
    }

    /// A node that reaches a divided node reaches the children of that node too.
    pub proof fn lemma_reach_extends(&self, from: int, above: int, key: int)
        requires
            self.wf(),
            self.nodes.valid(from),
            self.nodes.valid(above),
            self.nodes.valid(key),
            key != 0,
            self.node_parents@[key].0 == above,
            self.reaches(from, self.node_bounds@[from], above),
        ensures
            self.reaches(from, self.node_bounds@[from], key),
        decreases self.node_bounds@[from].size,
    {
        let bounds = self.node_bounds@[from];
        let upper = self.node_bounds@[above];
        let region = self.node_bounds@[key];
        let dim = self.dim();
        let s = self.node_parents@[key].1;
        let x = region.min_position.x as int;
        let y = region.min_position.y as int;
        let z = region.min_position.z as int;
        assert(self.hangs_ok(key));
        assert(self.node_ok(above));
        assert(self.node_ok(key));
        assert(self.link_ok(above, s));
        lemma_power_of_two_positive(dim);
        lemma_node_size(upper.size as int, dim);
        lemma_node_size(region.size as int, dim);
        self.lemma_child_bounds_ok(upper, s);
        assert(region == upper.child_cube(s));
        assert(region.contains_point(x, y, z));
        crate::semantics::lemma_sectant_of_child_point(upper, s, x, y, z);
        if from == above {
            assert(self.reaches(key, upper.child_cube(s), key));
        } else if from != key {
            assert(self.node_ok(from));
            lemma_node_size(bounds.size as int, dim);
            let t = self.sectant_towards(bounds, above);
            let next = self.node_children[from].child_key(t);
            lemma_child_cube_contains(
                bounds,
                upper.min_position.x as int,
                upper.min_position.y as int,
                upper.min_position.z as int,
            );
            assert(self.link_ok(from, t));
            assert(self.nodes.valid(next)) by {
                reveal_with_fuel(Contree::reaches, 2);
            }
            self.lemma_child_bounds_ok(bounds, t);
            self.lemma_reached_inside(next, above);
            self.lemma_reach_extends(next, above, key);
            assert(bounds.child_cube(t).contains_point(x, y, z));
            crate::semantics::lemma_sectant_of_child_point(bounds, t, x, y, z);
            assert(self.sectant_towards(bounds, key) == t);
        }
    }

    /// The root reaches every node of the tree.
    pub proof fn lemma_all_reached(&self, key: int)
        requires
            self.wf(),
            self.nodes.valid(key),
        ensures
            self.reaches(0, self.root_cube(), key),
        decreases self.contree_size - self.node_bounds@[key].size,
    {
        if key != 0 {
            let above = self.node_parents@[key].0;
            let s = self.node_parents@[key].1;
            assert(self.hangs_ok(key));
            assert(self.node_ok(above));
            assert(self.node_ok(key));
            assert(self.link_ok(above, s));
            lemma_power_of_two_positive(self.dim());
            lemma_node_size(self.node_bounds@[above].size as int, self.dim());
            self.lemma_all_reached(above);
            self.lemma_reach_extends(0, above, key);
        }
    }

    /// A tree in which a node was simplified shows at every position what it showed before.
    pub proof fn lemma_simplified_shows_same(&self, after: &Self, key: int)
        requires
            self.wf(),
            after.wf(),
            self.nodes.valid(key),
            self.changed_inside(after, self.node_bounds@[key]),
            self.voxels_kept(after, key, self.node_bounds@[key]),
        ensures
            self.same_voxels_as(after),
            forall|x: int, y: int, z: int| #[trigger]
                after.entry_at(x, y, z) == self.entry_at(x, y, z),
    {
        self.lemma_all_reached(key);
        self.lemma_kept_above(after, 0, key);
        assert forall|x: int, y: int, z: int| #[trigger]
            after.voxel(x, y, z) == self.voxel(x, y, z) by {
            if self.root_cube().contains_point(x, y, z) {
                assert(after.voxel_in(0, self.root_cube(), x, y, z) == self.voxel_in(
                    0,
                    self.root_cube(),
                    x,
                    y,
                    z,
                ));
            }
        }
        assert forall|x: int, y: int, z: int| #[trigger]
            after.entry_at(x, y, z) == self.entry_at(x, y, z) by {
            assert(after.voxel(x, y, z) == self.voxel(x, y, z));
        }
    }

    /// After a change inside the cube of one sectant of a divided node, which the child in
    /// that sectant shows nothing of, the node shows at a position what it showed before.
    pub proof fn lemma_step_kept(&self, after: &Self, key: int, sectant: int, x: int, y: int,
        z: int)
        requires
            self.wf(),
            after.wf(),
            self.nodes.valid(key),
            self.nodes.item(key) is Internal,
            self.same_node_in(after, key),
            0 <= sectant < 64,
            self.node_bounds@[key].contains_point(x, y, z),
            self.changed_inside(after, self.node_bounds@[key].child_cube(sectant)),
            self.voxels_kept(
                after,
                self.node_children[key].child_key(sectant),
                self.node_bounds@[key].child_cube(sectant),
            ),
        ensures
            after.voxel_in(key, self.node_bounds@[key], x, y, z) == self.voxel_in(
                key,
                self.node_bounds@[key],
                x,
                y,
                z,
            ),
    {
        self.lemma_step(after, key, sectant, x, y, z);
    }
}

} // verus!
