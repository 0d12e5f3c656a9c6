//! The elementary changes of the node graph; each keeps the invariant of the tree.
use vstd::prelude::*;
use crate::spatial::Cube;
use crate::tree::Contree;
use crate::leaf::{strict_palettes, usable_dimension};
use crate::tree::content_bits_are;
use crate::types::{Albedo, VoxelChildren, VoxelContent, VoxelData, EMPTY_MARKER};

verus! {

/// The first cube lies inside the second.
pub open spec fn cube_inside(inner: Cube, outer: Cube) -> bool {
    &&& outer.min_position.x <= inner.min_position.x
    &&& inner.min_position.x + inner.size <= outer.min_position.x + outer.size
    &&& outer.min_position.y <= inner.min_position.y
    &&& inner.min_position.y + inner.size <= outer.min_position.y + outer.size
    &&& outer.min_position.z <= inner.min_position.z
    &&& inner.min_position.z + inner.size <= outer.min_position.z + outer.size
}

impl<T: VoxelData> Contree<T> {
    /// The tree has the settings and the palettes of the other tree.
    pub open spec fn same_settings_as(&self, other: &Self) -> bool {
        &&& self.auto_simplify == other.auto_simplify
        &&& self.contree_size == other.contree_size
        &&& self.chunk_dim == other.chunk_dim
        &&& self.voxel_color_palette@ == other.voxel_color_palette@
        &&& self.voxel_data_palette@ == other.voxel_data_palette@
    }

    /// The node is a node of the other tree too, and the same there in all respects.
    pub open spec fn same_node_in(&self, other: &Self, key: int) -> bool {
        &&& other.nodes.valid(key)
        &&& other.nodes.item(key) == self.nodes.item(key)
        &&& other.node_children[key] == self.node_children[key]
        &&& other.node_bounds@[key] == self.node_bounds@[key]
        &&& other.node_parents@[key] == self.node_parents@[key]
    }

    /// The other tree came from this one by changes inside the region: the nodes that do
    /// not lie inside the region are the same in both.
    pub open spec fn changed_inside(&self, after: &Self, region: Cube) -> bool {
        &&& after.same_settings_as(self)
        &&& after.nodes.slots() >= self.nodes.slots()
        &&& forall|key: int|
            self.nodes.valid(key) && !cube_inside(self.node_bounds@[key], region)
                ==> #[trigger] self.same_node_in(after, key)
        &&& forall|key: int|
            after.nodes.valid(key) && !cube_inside(after.node_bounds@[key], region)
                ==> #[trigger] self.kept_node_in(after, key)
    }

    /// The node of the other tree is a node of this tree, and the same in both.
    pub open spec fn kept_node_in(&self, other: &Self, key: int) -> bool {
        self.nodes.valid(key) && self.same_node_in(other, key)
    }

    /// The other tree differs from this one in the given node at most.
    pub open spec fn changed_node(&self, after: &Self, key: int) -> bool {
        &&& after.same_settings_as(self)
        &&& after.nodes.slots() == self.nodes.slots()
        &&& after.node_bounds@ == self.node_bounds@
        &&& after.node_parents@ == self.node_parents@
        &&& forall|other: int| after.nodes.valid(other) == self.nodes.valid(other)
        &&& forall|other: int|
            self.nodes.valid(other) && other != key ==> #[trigger] self.same_node_in(after, other)
    }

    /// The links of a node hold in a tree in which the node has its children descriptor and
    /// its cube as before, and all nodes but one, to which this node does not link, are
    /// nodes as before and hang where they hung.
    pub proof fn lemma_links_kept(&self, after: &Self, key: int, excluded: int)
        requires
            self.nodes.valid(key),
            self.node_ok(key),
            self.nodes.item(key) is Internal,
            after.node_children[key] == self.node_children[key],
            after.node_bounds@[key] == self.node_bounds@[key],
            forall|other: int|
                self.nodes.valid(other) && other != excluded ==> after.nodes.valid(other)
                    && after.node_parents@[other] == self.node_parents@[other]
                    && after.node_bounds@[other] == self.node_bounds@[other],
            forall|sectant: int|
                0 <= sectant < 64 ==> self.node_children[key].child_key(sectant) != excluded,
        ensures
            forall|sectant: int| 0 <= sectant < 64 ==> #[trigger] after.link_ok(key, sectant),
    {
        assert forall|sectant: int| 0 <= sectant < 64 implies #[trigger] after.link_ok(
            key,
            sectant,
        ) by {
            assert(self.link_ok(key, sectant));
            assert(self.node_children[key].child_key(sectant) != excluded);
        }
    }

    /// The occupancy bitmap of the content of a leaf; zero for any other content.
    pub fn occupied_bits_for(
        content: &VoxelContent,
        chunk_dim: u32,
        color_palette: &Vec<Albedo>,
        data_palette: &Vec<T>,
    ) -> (bitmap: u64)
        requires
            usable_dimension(chunk_dim as int),
            content.wf(chunk_dim as int),
            content.in_palettes(color_palette.len() as int, data_palette.len() as int),
        ensures
            content_bits_are(*content, bitmap, chunk_dim as int, color_palette@, data_palette@),
    {
        match content {
            VoxelContent::Leaf(bricks) => {
                let mut bitmap: u64 = 0;
                let mut sectant: u8 = 0;
                while sectant < 64
                    invariant
                        sectant <= 64,
                        bricks.len() == 64,
                        forall|s: int|
                            0 <= s < 64 ==> (#[trigger] bricks[s]).in_palettes(
                                color_palette.len() as int,
                                data_palette.len() as int,
                            ),
                        forall|s: int|
                            0 <= s < sectant ==> crate::bitmap::bit_is_set(bitmap, s) == !(
                            #[trigger] bricks[s]).nothing(color_palette@, data_palette@),
                    decreases 64 - sectant,
                {
                    assert(bricks[sectant as int].in_palettes(
                        color_palette.len() as int,
                        data_palette.len() as int,
                    ));
                    let holds_nothing: bool = bricks[sectant as usize].contains_nothing(
                        color_palette,
                        data_palette,
                    );
                    bitmap = crate::bitmap::with_bit(bitmap, sectant, !holds_nothing);
                    sectant += 1;
                }
                bitmap
            },
            VoxelContent::UniformLeaf(brick) => brick.calculate_occupied_bits(
                chunk_dim as usize,
                color_palette,
                data_palette,
            ),
            _ => 0,
        }
    }

    /// Replaces the content of a node that is not divided into children by another content
    /// that holds no children either, and pairs the children descriptor with it: none for a
    /// node that holds nothing, the occupancy bitmap of the content for a leaf.
    pub fn put_content(&mut self, key: usize, content: VoxelContent)
        requires
            old(self).wf(),
            old(self).nodes.valid(key as int),
            !(old(self).nodes.item(key as int) is Internal),
            !(content is Internal),
            content.wf(old(self).dim()),
            content.in_palettes(
                old(self).voxel_color_palette.len() as int,
                old(self).voxel_data_palette.len() as int,
            ),
        ensures
            final(self).wf(),
            old(self).changed_node(final(self), key as int),
            old(self).changed_inside(final(self), old(self).node_bounds@[key as int]),
            final(self).nodes.item(key as int) == content,
    {
        proof {
            crate::update::lemma_usable_dimension(self.dim());
        }
        let paired: VoxelChildren = match &content {
            VoxelContent::Nothing => VoxelChildren::NoChildren,
            _ => VoxelChildren::OccupancyBitmap(
                Self::occupied_bits_for(
                    &content,
                    self.chunk_dim,
                    &self.voxel_color_palette,
                    &self.voxel_data_palette,
                ),
            ),
        };
        let previous: VoxelContent = self.nodes.replace(key, content);
        self.node_children[key] = paired;
        proof {
            assert forall|other: int| self.nodes.valid(other) implies #[trigger] self.node_ok(
                other,
            ) by {
                assert(old(self).node_ok(other));
                if other != key && self.nodes.item(other) is Internal {
                    old(self).lemma_links_kept(self, other, -1);
                }
            }
            assert forall|other: int| self.nodes.valid(other) implies #[trigger] self.hangs_ok(
                other,
            ) by {
                if old(self).nodes.valid(other) && other != 0 {
                    assert(old(self).hangs_ok(other));
                    let above = old(self).node_parents@[other];
                    assert(old(self).node_ok(above.0));
                    assert(old(self).link_ok(above.0, above.1));
                }
            }
        }
    }

    /// Stores the occupancy bitmap of the node where its kind keeps it: in the content of a
    /// divided node, in the children descriptor of a leaf. A node that holds nothing keeps none.
    pub fn store_occupied_bits(&mut self, node_key: usize, new_occupied_bits: u64)
        requires
            old(self).wf(),
            old(self).nodes.valid(node_key as int),
            old(self).nodes.item(node_key as int) is Internal ==> forall|sectant: int|
                0 <= sectant < 64 ==> (crate::bitmap::bit_is_set(new_occupied_bits, sectant) <==> (
                #[trigger] old(self).node_children[node_key as int].child_key(sectant))
                    != EMPTY_MARKER),
            old(self).nodes.item(node_key as int).is_leaf_kind() ==> content_bits_are(
                old(self).nodes.item(node_key as int),
                new_occupied_bits,
                old(self).dim(),
                old(self).voxel_color_palette@,
                old(self).voxel_data_palette@,
            ),
        ensures
            old(self).changed_inside(final(self), old(self).node_bounds@[node_key as int]),
            final(self).wf(),
            old(self).changed_node(final(self), node_key as int),
            match old(self).nodes.item(node_key as int) {
                VoxelContent::Internal(_) => final(self).nodes.item(node_key as int)
                    == VoxelContent::Internal(new_occupied_bits)
                        && final(self).node_children[node_key as int]
                        == old(self).node_children[node_key as int],
                VoxelContent::Nothing => old(self).same_node_in(final(self), node_key as int),
                _ => final(self).nodes.item(node_key as int) == old(self).nodes.item(
                    node_key as int,
                ) && final(self).node_children[node_key as int]
                    == VoxelChildren::OccupancyBitmap(new_occupied_bits),
            },
    {
        assert(self.node_ok(node_key as int));
        let is_internal: bool = match self.nodes.get(node_key) {
            VoxelContent::Internal(_) => true,
            _ => false,
        };
        let is_nothing: bool = match self.nodes.get(node_key) {
            VoxelContent::Nothing => true,
            _ => false,
        };
        if is_internal {
            let previous: VoxelContent = self.nodes.replace(
                node_key,
                VoxelContent::Internal(new_occupied_bits),
            );
        } else if !is_nothing {
            self.node_children[node_key] = VoxelChildren::OccupancyBitmap(new_occupied_bits);
        }
        proof {
            assert forall|other: int| self.nodes.valid(other) implies #[trigger] self.node_ok(
                other,
            ) by {
                assert(old(self).node_ok(other));
                if self.nodes.item(other) is Internal {
                    old(self).lemma_links_kept(self, other, -1);
                }
            }
            assert forall|other: int| self.nodes.valid(other) implies #[trigger] self.hangs_ok(
                other,
            ) by {
                if old(self).nodes.valid(other) && other != 0 {
                    assert(old(self).hangs_ok(other));
                    let above = old(self).node_parents@[other];
                    assert(old(self).node_ok(above.0));
                    assert(old(self).link_ok(above.0, above.1));
                }
            }
        }
    }

    /// The occupancy bitmap that the node keeps; zero for a node that holds nothing.
    pub fn stored_occupied_bits(&self, node_key: usize) -> (bits: u64)
        requires
            self.wf(),
            self.nodes.valid(node_key as int),
        ensures
            bits == self.occupied_bits_of(node_key as int),
    {
        assert(self.node_ok(node_key as int));
        match self.nodes.get(node_key) {
            VoxelContent::Internal(bits) => *bits,
            VoxelContent::Nothing => 0,
            _ => match self.node_children[node_key] {
                VoxelChildren::OccupancyBitmap(bits) => bits,
                _ => 0,
            },
        }
    }

    /// The occupancy bitmap that the node keeps.
    pub open spec fn occupied_bits_of(&self, key: int) -> u64 {
        match self.nodes.item(key) {
            VoxelContent::Internal(bits) => bits,
            VoxelContent::Nothing => 0,
            _ => match self.node_children[key] {
                VoxelChildren::OccupancyBitmap(bits) => bits,
                _ => 0,
            },
        }
    }

    /// Turns a node that is not divided into children into a divided node without children.
    pub fn make_internal(&mut self, key: usize)
        requires
            old(self).wf(),
            old(self).nodes.valid(key as int),
            !(old(self).nodes.item(key as int) is Internal),
            old(self).node_bounds@[key as int].size > 4 * old(self).dim(),
        ensures
            final(self).wf(),
            old(self).changed_node(final(self), key as int),
            old(self).changed_inside(final(self), old(self).node_bounds@[key as int]),
            final(self).nodes.item(key as int) == VoxelContent::Internal(0),
            final(self).node_children[key as int] is Children,
            forall|sectant: int|
                0 <= sectant < 64 ==> final(self).node_children[key as int].child_key(sectant)
                    == EMPTY_MARKER,
    {
        let previous: VoxelContent = self.nodes.replace(key, VoxelContent::Internal(0));
        self.node_children[key] = VoxelChildren::Children([EMPTY_MARKER;64]);
        proof {
            assert forall|other: int| self.nodes.valid(other) implies #[trigger] self.node_ok(
                other,
            ) by {
                assert(old(self).node_ok(other));
                if other != key && self.nodes.item(other) is Internal {
                    old(self).lemma_links_kept(self, other, -1);
                }
                if other == key {
                    assert forall|sectant: int| 0 <= sectant < 64 implies #[trigger] self.link_ok(
                        key as int,
                        sectant,
                    ) by {}
                    assert forall|sectant: int| 0 <= sectant < 64 implies !crate::bitmap::bit_is_set(
                        0,
                        sectant,
                    ) by {
                        crate::bitmap::lemma_constant_bitmaps(sectant);
                    }
                }
            }
            assert forall|other: int| self.nodes.valid(other) implies #[trigger] self.hangs_ok(
                other,
            ) by {
                if old(self).nodes.valid(other) && other != 0 {
                    assert(old(self).hangs_ok(other));
                    let above = old(self).node_parents@[other];
                    assert(old(self).node_ok(above.0));
                    assert(old(self).link_ok(above.0, above.1));
                }
            }
        }
    }

    /// The cube of a sectant of a node that can be divided is the cube of a node.
    pub proof fn lemma_child_bounds_ok(&self, bounds: Cube, sectant: int)
        requires
            self.dim() >= 1,
            self.bounds_ok(bounds),
            bounds.size > 4 * self.dim(),
            0 <= sectant < 64,
        ensures
            self.bounds_ok(bounds.child_cube(sectant)),
            cube_inside(bounds.child_cube(sectant), bounds),
            bounds.child_cube(sectant).wf(),
    {
        crate::tree::lemma_node_size(bounds.size as int, self.dim());
        let q = bounds.size as int / 4;
        let sx = crate::spatial::sectant_x(sectant);
        let sy = crate::spatial::sectant_y(sectant);
        let sz = crate::spatial::sectant_z(sectant);
        assert(bounds.size == 4 * q);
        lemma_aligned_quarter(bounds.min_position.x as int, q, sx);
        lemma_aligned_quarter(bounds.min_position.y as int, q, sy);
        lemma_aligned_quarter(bounds.min_position.z as int, q, sz);
    }

    /// Turns a divided node without children into a node that holds nothing.
    pub fn clear_internal(&mut self, key: usize)
        requires
            old(self).wf(),
            old(self).nodes.valid(key as int),
            old(self).nodes.item(key as int) is Internal,
            forall|sectant: int|
                0 <= sectant < 64 ==> old(self).node_children[key as int].child_key(sectant)
                    == EMPTY_MARKER,
        ensures
            final(self).wf(),
            old(self).changed_node(final(self), key as int),
            old(self).changed_inside(final(self), old(self).node_bounds@[key as int]),
            final(self).nodes.item(key as int) is Nothing,
    {
        let previous: VoxelContent = self.nodes.replace(key, VoxelContent::Nothing);
        self.node_children[key] = VoxelChildren::NoChildren;
        proof {
            assert forall|other: int| self.nodes.valid(other) implies #[trigger] self.node_ok(
                other,
            ) by {
                assert(old(self).node_ok(other));
                if other != key && self.nodes.item(other) is Internal {
                    old(self).lemma_links_kept(self, other, -1);
                }
            }
            assert forall|other: int| self.nodes.valid(other) implies #[trigger] self.hangs_ok(
                other,
            ) by {
                if old(self).nodes.valid(other) && other != 0 {
                    assert(old(self).hangs_ok(other));
                    let above = old(self).node_parents@[other];
                    assert(old(self).node_ok(above.0));
                    assert(old(self).link_ok(above.0, above.1));
                }
            }
        }
    }

    /// Takes the content out of a node that is not divided; the node holds nothing afterwards.
    pub fn take_content(&mut self, key: usize) -> (content: VoxelContent)
        requires
            old(self).wf(),
            old(self).nodes.valid(key as int),
            !(old(self).nodes.item(key as int) is Internal),
        ensures
            final(self).wf(),
            old(self).changed_node(final(self), key as int),
            old(self).changed_inside(final(self), old(self).node_bounds@[key as int]),
            final(self).nodes.item(key as int) is Nothing,
            content == old(self).nodes.item(key as int),
    {
        let previous: VoxelContent = self.nodes.replace(key, VoxelContent::Nothing);
        self.node_children[key] = VoxelChildren::NoChildren;
        proof {
            assert forall|other: int| self.nodes.valid(other) implies #[trigger] self.node_ok(
                other,
            ) by {
                assert(old(self).node_ok(other));
                if other != key && self.nodes.item(other) is Internal {
                    old(self).lemma_links_kept(self, other, -1);
                }
            }
            assert forall|other: int| self.nodes.valid(other) implies #[trigger] self.hangs_ok(
                other,
            ) by {
                if old(self).nodes.valid(other) && other != 0 {
                    assert(old(self).hangs_ok(other));
                    let above = old(self).node_parents@[other];
                    assert(old(self).node_ok(above.0));
                    assert(old(self).link_ok(above.0, above.1));
                }
            }
        }
        previous
    }

    /// Changes inside a region, followed by changes inside a part of the region, are changes
    /// inside the region.
    pub proof fn lemma_changed_inside_trans(&self, between: &Self, after: &Self, part: Cube,
        region: Cube)
        requires
            self.changed_inside(between, region),
            between.changed_inside(after, part),
            cube_inside(part, region),
        ensures
            self.changed_inside(after, region),
    {
        assert forall|key: int|
            self.nodes.valid(key) && !cube_inside(
                self.node_bounds@[key],
                region,
            ) implies #[trigger] self.same_node_in(after, key) by {
            assert(self.same_node_in(between, key));
            assert(between.same_node_in(after, key));
        }
        assert forall|key: int|
            after.nodes.valid(key) && !cube_inside(
                after.node_bounds@[key],
                region,
            ) implies #[trigger] self.kept_node_in(after, key) by {
            assert(between.kept_node_in(after, key));
            assert(self.kept_node_in(between, key));
        }
        assert(after.same_settings_as(self));
    }

    /// Two changes of one node are a change of that node.
    pub proof fn lemma_changed_node_trans(&self, between: &Self, after: &Self, key: int)
        requires
            self.changed_node(between, key),
            between.changed_node(after, key),
        ensures
            self.changed_node(after, key),
    {
        assert forall|other: int|
            self.nodes.valid(other) && other != key implies #[trigger] self.same_node_in(
            after,
            other,
        ) by {
            assert(self.same_node_in(between, other));
            assert(between.same_node_in(after, other));
        }
    }

    /// No change is a change of any node.
    pub proof fn lemma_changed_node_refl(&self, key: int)
        ensures
            self.changed_node(self, key),
    {
    }

    /// No change is a change inside any region.
    pub proof fn lemma_changed_inside_refl(&self, region: Cube)
        ensures
            self.changed_inside(self, region),
    {
    }

    /// Adds a node with the given content, which holds no children, as the child of a
    /// divided node in a sectant that has no child. Returns the key of the child; or nothing,
    /// without a change, if there is no key left to give out.
    pub fn add_child(
        &mut self,
        key: usize,
        sectant: u8,
        content: VoxelContent,
    ) -> (r: Option<usize>)
        requires
            old(self).wf(),
            old(self).nodes.valid(key as int),
            old(self).nodes.item(key as int) is Internal,
            sectant < 64,
            old(self).node_children[key as int].child_key(sectant as int) == EMPTY_MARKER,
            !(content is Internal),
            content.wf(old(self).dim()),
            content.in_palettes(
                old(self).voxel_color_palette.len() as int,
                old(self).voxel_data_palette.len() as int,
            ),
        ensures
            final(self).wf(),
            final(self).same_settings_as(old(self)),
            r is None ==> old(self).nodes.slots() >= EMPTY_MARKER && old(self).changed_node(
                final(self),
                key as int,
            ) && old(self).same_node_in(final(self), key as int),
            r matches Some(child) ==> {
                &&& final(self).nodes.slots() <= old(self).nodes.slots() + 1
                &&& final(self).nodes.slots() >= old(self).nodes.slots()
                &&& !old(self).nodes.valid(child as int)
                &&& final(self).nodes.valid(child as int)
                &&& child != key
                &&& final(self).nodes.item(child as int) == content
                &&& final(self).node_bounds@[child as int]
                    == old(self).node_bounds@[key as int].child_cube(
                    sectant as int,
                )
                &&& final(self).nodes.item(key as int) is Internal
                &&& final(self).nodes.valid(key as int)
                &&& old(self).changed_inside(final(self), old(self).node_bounds@[key as int])
                &&& final(self).node_bounds@[key as int] == old(self).node_bounds@[key as int]
                &&& final(self).node_parents@[key as int] == old(self).node_parents@[key as int]
                &&& forall|s: int|
                    0 <= s < 64 ==> final(self).node_children[key as int].child_key(s) == (if s
                        == sectant {
                        child as int
                    } else {
                        old(self).node_children[key as int].child_key(s)
                    })
                &&& forall|other: int|
                    other != child ==> final(self).nodes.valid(other) == old(self).nodes.valid(
                        other,
                    )
                &&& forall|other: int|
                    old(self).nodes.valid(other) && other != key
                        ==> #[trigger] old(self).same_node_in(final(self), other)
            },
    {
        if self.nodes.len() >= EMPTY_MARKER as usize {
            return None;
        }
        let ghost parent_bounds = self.node_bounds@[key as int];
        let ghost child_bounds = parent_bounds.child_cube(sectant as int);
        proof {
            assert(self.node_ok(key as int));
            crate::tree::lemma_power_of_two_positive(self.dim());
            self.lemma_child_bounds_ok(parent_bounds, sectant as int);
        }
        proof {
            crate::update::lemma_usable_dimension(self.dim());
        }
        let paired: VoxelChildren = match &content {
            VoxelContent::Nothing => VoxelChildren::NoChildren,
            _ => VoxelChildren::OccupancyBitmap(
                Self::occupied_bits_for(
                    &content,
                    self.chunk_dim,
                    &self.voxel_color_palette,
                    &self.voxel_data_palette,
                ),
            ),
        };
        let child: usize = self.nodes.push(content);
        if child == self.node_children.len() {
            self.node_children.push(paired);
            proof {
                self.node_bounds@ = self.node_bounds@.push(child_bounds);
                self.node_parents@ = self.node_parents@.push((key as int, sectant as int));
            }
        } else {
            self.node_children[child] = paired;
            proof {
                self.node_bounds@ = self.node_bounds@.update(child as int, child_bounds);
                self.node_parents@ = self.node_parents@.update(
                    child as int,
                    (key as int, sectant as int),
                );
            }
        }
        self.node_children[key].set_child(sectant as usize, child as u32);
        let occupied: u64 = match self.nodes.get(key) {
            VoxelContent::Internal(bits) => *bits,
            _ => 0,
        };
        let previous: VoxelContent = self.nodes.replace(
            key,
            VoxelContent::Internal(crate::bitmap::with_bit(occupied, sectant, true)),
        );
        proof {
            assert forall|other: int| self.nodes.valid(other) implies #[trigger] self.node_ok(
                other,
            ) by {
                if other == child {
                } else if other == key {
                    assert(old(self).node_ok(other));
                    assert forall|s: int| 0 <= s < 64 implies #[trigger] self.link_ok(
                        key as int,
                        s,
                    ) by {
                        assert(old(self).link_ok(key as int, s));
                    }
                } else {
                    assert(old(self).node_ok(other));
                    if self.nodes.item(other) is Internal {
                        assert forall|s: int| 0 <= s < 64 implies #[trigger] self.link_ok(
                            other,
                            s,
                        ) by {
                            assert(old(self).link_ok(other, s));
                        }
                    }
                }
            }
            assert forall|other: int| self.nodes.valid(other) implies #[trigger] self.hangs_ok(
                other,
            ) by {
                if old(self).nodes.valid(other) && other != 0 {
                    assert(old(self).hangs_ok(other));
                    let above = old(self).node_parents@[other];
                    assert(old(self).node_ok(above.0));
                    assert(old(self).link_ok(above.0, above.1));
                }
            }
        }
        Some(child)
    }

    /// Frees the child of a divided node in the given sectant, where that child is not
    /// divided itself. A node that has no child left afterwards holds nothing.
    pub fn free_child(&mut self, key: usize, sectant: u8)
        requires
            old(self).wf(),
            old(self).nodes.valid(key as int),
            old(self).nodes.item(key as int) is Internal,
            sectant < 64,
            old(self).node_children[key as int].child_key(sectant as int) != EMPTY_MARKER,
            !(old(self).nodes.item(
                old(self).node_children[key as int].child_key(sectant as int),
            ) is Internal),
        ensures
            final(self).wf(),
            final(self).same_settings_as(old(self)),
            final(self).nodes.slots() == old(self).nodes.slots(),
            final(self).node_bounds@ == old(self).node_bounds@,
            final(self).nodes.valid(key as int),
            !final(self).nodes.valid(
                old(self).node_children[key as int].child_key(sectant as int),
            ),
            forall|other: int|
                other != old(self).node_children[key as int].child_key(sectant as int)
                    ==> final(self).nodes.valid(other) == old(self).nodes.valid(other),
            forall|other: int|
                old(self).nodes.valid(other) && other != key
                    && other != old(self).node_children[key as int].child_key(sectant as int)
                    ==> #[trigger] old(self).same_node_in(final(self), other),
            old(self).changed_inside(final(self), old(self).node_bounds@[key as int]),
            final(self).node_parents@[key as int] == old(self).node_parents@[key as int],
            final(self).nodes.item(key as int) is Internal ==> forall|s: int|
                0 <= s < 64 ==> final(self).node_children[key as int].child_key(s) == (if s
                    == sectant {
                    EMPTY_MARKER as int
                } else {
                    old(self).node_children[key as int].child_key(s)
                }),
            !(final(self).nodes.item(key as int) is Internal) ==> final(self).nodes.item(
                key as int,
            ) is Nothing && forall|s: int|
                0 <= s < 64 && s != sectant ==> old(self).node_children[key as int].child_key(s)
                    == EMPTY_MARKER,
            (forall|s: int|
                0 <= s < 64 && s != sectant ==> old(self).node_children[key as int].child_key(s)
                    == EMPTY_MARKER) ==> final(self).nodes.item(key as int) is Nothing,
    {
        proof {
            assert(self.node_ok(key as int));
            assert(self.link_ok(key as int, sectant as int));
            crate::tree::lemma_power_of_two_positive(self.dim());
            self.lemma_child_bounds_ok(self.node_bounds@[key as int], sectant as int);
        }
        let child: usize = self.node_children[key].child(sectant);
        let freed: bool = self.nodes.free(child);
        self.node_children[key].clear(sectant as usize);
        let no_children_left: bool = match self.node_children[key] {
            VoxelChildren::NoChildren => true,
            _ => false,
        };
        if no_children_left {
            let previous: VoxelContent = self.nodes.replace(key, VoxelContent::Nothing);
        } else {
            let occupied: u64 = match self.nodes.get(key) {
                VoxelContent::Internal(bits) => *bits,
                _ => 0,
            };
            let previous: VoxelContent = self.nodes.replace(
                key,
                VoxelContent::Internal(crate::bitmap::with_bit(occupied, sectant, false)),
            );
        }
        proof {
            assert forall|other: int| self.nodes.valid(other) implies #[trigger] self.node_ok(
                other,
            ) by {
                assert(old(self).node_ok(other));
                if other == key {
                    if self.nodes.item(other) is Internal {
                        assert forall|s: int| 0 <= s < 64 implies #[trigger] self.link_ok(
                            key as int,
                            s,
                        ) by {
                            assert(old(self).link_ok(key as int, s));
                            if s != sectant && old(self).node_children[key as int].child_key(s)
                                == child {
                                assert(false);
                            }
                        }
                    }
                } else {
                    if self.nodes.item(other) is Internal {
                        assert forall|s: int| 0 <= s < 64 implies #[trigger] self.link_ok(
                            other,
                            s,
                        ) by {
                            assert(old(self).link_ok(other, s));
                        }
                    }
                }
            }
            assert forall|other: int| self.nodes.valid(other) implies #[trigger] self.hangs_ok(
                other,
            ) by {
                if old(self).nodes.valid(other) && other != 0 {
                    assert(old(self).hangs_ok(other));
                    let above = old(self).node_parents@[other];
                    assert(old(self).node_ok(above.0));
                    assert(old(self).link_ok(above.0, above.1));
                }
            }
        }
    }
}

/// A quarter of an aligned cube starts at a multiple of its own edge length.
pub proof fn lemma_aligned_quarter(min: int, quarter: int, coordinate: int)
    requires
        0 <= min,
        quarter > 0,
        min % (4 * quarter) == 0,
        0 <= coordinate < 4,
    ensures
        (min + coordinate * quarter) % quarter == 0,
        0 <= coordinate * quarter,
        coordinate * quarter + quarter <= 4 * quarter,
{
    let a = min / (4 * quarter);
    assert(min == a * (4 * quarter)) by (nonlinear_arith)
        requires
            min % (4 * quarter) == 0,
            a == min / (4 * quarter),
            quarter > 0,
    ;
    assert(min + coordinate * quarter == (4 * a + coordinate) * quarter) by (nonlinear_arith)
        requires
            min == a * (4 * quarter),
    ;
    vstd::arithmetic::div_mod::lemma_fundamental_div_mod_converse(
        min + coordinate * quarter,
        quarter,
        4 * a + coordinate,
        0,
    );
    assert(0 <= coordinate * quarter && coordinate * quarter + quarter <= 4 * quarter)
        by (nonlinear_arith)
        requires
            0 <= coordinate < 4,
            quarter > 0,
    ;
}

} // verus!
