//! Updates of the tree: writing values, dividing leaves, freeing subtrees.
use vstd::prelude::*;
use crate::arena::cube_inside;
use crate::leaf::{
    leaf_bricks_of, same_voxels, single_voxel_written, strict_palettes, update_palettes_ok,
    usable_dimension,
};
use crate::spatial::lemma_child_cube_contains;
use crate::tree::brick_voxel;
use crate::palette::index_in_palettes;
use crate::semantics::lemma_sectant_of_child_point;
use crate::spatial::{Cube, V3c};
use crate::tree::{brick_dimension_ok, content_voxel, is_power_of_two};
use crate::tree::{lemma_node_size, lemma_power_of_two_positive, Contree};
use crate::types::{
    ChunkData, PaletteIndexValues, VoxelChildren, VoxelContent, VoxelData, EMPTY_MARKER,
};

verus! {

/// The largest number of slots of the node pool with which a leaf can still be divided: the
/// keys left suffice for sixty-four children.
pub const DIVISIBLE_SLOTS: usize = 0xFFFF_FF00;

impl<T: VoxelData> Contree<T> {
    /// Frees all nodes below the given divided node; the node holds nothing afterwards.
    pub fn deallocate_children_of(&mut self, node: usize)
        requires
            old(self).wf(),
            old(self).nodes.valid(node as int),
            old(self).nodes.item(node as int) is Internal,
        ensures
            final(self).wf(),
            final(self).nodes.slots() == old(self).nodes.slots(),
            final(self).nodes.valid(node as int),
            final(self).nodes.item(node as int) is Nothing,
            final(self).node_bounds@[node as int] == old(self).node_bounds@[node as int],
            final(self).node_parents@[node as int] == old(self).node_parents@[node as int],
            old(self).changed_inside(final(self), old(self).node_bounds@[node as int]),
            forall|other: int| final(self).nodes.valid(other) ==> old(self).nodes.valid(other),
            forall|s: int|
                0 <= s < 64 ==> !final(self).nodes.valid(
                    #[trigger] old(self).node_children[node as int].child_key(s),
                ),
        decreases old(self).node_bounds@[node as int].size,
    {
        let ghost region = self.node_bounds@[node as int];
        let ghost hangs = self.node_parents@[node as int];
        let mut sectant: u8 = 0;
        proof {
            self.lemma_changed_inside_refl(region);
            lemma_power_of_two_positive(self.dim());
        }
        while sectant < 64
            invariant
                sectant <= 64,
                self.wf(),
                self.nodes.slots() == old(self).nodes.slots(),
                self.dim() >= 1,
                self.nodes.valid(node as int),
                self.node_bounds@[node as int] == region,
                self.node_parents@[node as int] == hangs,
                region == old(self).node_bounds@[node as int],
                old(self).changed_inside(self, region),
                self.nodes.item(node as int) is Internal || self.nodes.item(node as int) is Nothing,
                forall|other: int| self.nodes.valid(other) ==> old(self).nodes.valid(other),
                forall|s: int|
                    0 <= s < sectant ==> !self.nodes.valid(
                        #[trigger] old(self).node_children[node as int].child_key(s),
                    ),
                forall|s: int|
                    sectant <= s < 64
                        ==> self.node_children[node as int].child_key(s)
                        == old(self).node_children[node as int].child_key(s),
                self.nodes.item(node as int) is Internal ==> forall|s: int|
                    0 <= s < sectant ==> self.node_children[node as int].child_key(s)
                        == EMPTY_MARKER,
            decreases 64 - sectant,
        {
            proof {
                assert(self.node_ok(node as int));
                if self.nodes.item(node as int) is Internal {
                    assert(self.link_ok(node as int, sectant as int));
                }
            }
            let child: usize = self.node_children[node].child(sectant);
            if self.nodes.key_is_valid(child) {
                proof {
                    assert(self.link_ok(node as int, sectant as int));
                    self.lemma_child_bounds_ok(region, sectant as int);
                    lemma_node_size(region.size as int, self.dim());
                }
                let child_is_divided: bool = match self.nodes.get(child) {
                    VoxelContent::Internal(_) => true,
                    _ => false,
                };
                if child_is_divided {
                    let ghost before = *self;
                    self.deallocate_children_of(child);
                    proof {
                        assert(!cube_inside(region, region.child_cube(sectant as int)));
                        assert(before.same_node_in(self, node as int));
                        old(self).lemma_changed_inside_trans(
                            &before,
                            self,
                            region.child_cube(sectant as int),
                            region,
                        );
                    }
                }
                let ghost before = *self;
                self.free_child(node, sectant);
                proof {
                    old(self).lemma_changed_inside_trans(&before, self, region, region);
                    assert(self.node_ok(node as int));
                    assert forall|s: int| sectant < s < 64 implies self.node_children[node as int].child_key(
                        s,
                    ) == old(self).node_children[node as int].child_key(s) by {
                        assert(before.node_children[node as int].child_key(s)
                            == old(self).node_children[node as int].child_key(s));
                    }
                }
            }
            sectant += 1;
        }
        let still_divided: bool = match self.nodes.get(node) {
            VoxelContent::Internal(_) => true,
            _ => false,
        };
        if still_divided {
            let ghost before = *self;
            self.clear_internal(node);
            proof {
                old(self).lemma_changed_inside_trans(&before, self, region, region);
            }
        }
    }

    /// The brick that stands for the node: the brick of a uniform leaf; the empty brick for
    /// any other node, and for a key that names no node.
    pub fn try_chunk_from_node(&self, node_key: usize) -> (r: ChunkData)
        requires
            self.wf(),
        ensures
            r.wf(self.dim()),
            r.in_palettes(
                self.voxel_color_palette.len() as int,
                self.voxel_data_palette.len() as int,
            ),
            self.stands_for_node(node_key as int, r),
    {
        if !self.nodes.key_is_valid(node_key) {
            return ChunkData::Empty;
        }
        proof {
            assert(self.node_ok(node_key as int));
        }
        match self.nodes.get(node_key) {
            VoxelContent::UniformLeaf(brick) => {
                let copy: ChunkData = brick.duplicate();
                proof {
                    ChunkData::lemma_same_as(copy, *brick);
                }
                copy
            },
            _ => ChunkData::Empty,
        }
    }

    /// The settings of a well formed tree allow updates.
    pub proof fn lemma_update_palettes_ok(&self, target_content: PaletteIndexValues)
        requires
            self.wf(),
            index_in_palettes(
                target_content,
                self.voxel_color_palette.len() as int,
                self.voxel_data_palette.len() as int,
            ),
        ensures
            update_palettes_ok(
                self.chunk_dim,
                self.voxel_color_palette@,
                self.voxel_data_palette@,
                target_content,
            ),
            self.dim() >= 1,
    {
        lemma_usable_dimension(self.dim());
    }

    /// The brick stands for the node: it is of the same kind and holds the same values as
    /// the brick of a uniform leaf; it is empty for any other node, and for a key that names
    /// no node.
    pub open spec fn stands_for_node(&self, key: int, brick: ChunkData) -> bool {
        match self.nodes.item(key) {
            VoxelContent::UniformLeaf(held) if self.nodes.valid(key) => brick.same_as(&held),
            _ => brick is Empty,
        }
    }

    /// The brick stands for the child in the given sectant of the node.
    pub open spec fn stands_for_child(&self, key: int, sectant: int, brick: ChunkData) -> bool {
        self.stands_for_node(self.node_children[key].child_key(sectant), brick)
    }

    /// The content is the leaf that the children of the divided node give: the brick of each
    /// sectant stands for the child in that sectant.
    pub open spec fn harvested_leaf(&self, key: int, content: VoxelContent) -> bool {
        match content {
            VoxelContent::Leaf(bricks) => bricks.len() == 64 && forall|s: int|
                0 <= s < 64 ==> self.stands_for_child(key, s, #[trigger] bricks[s]),
            _ => false,
        }
    }

    /// The content is what a write into the node starts from: the content of the node, or for
    /// a divided node the leaf that its children give.
    pub open spec fn write_base(&self, key: int, base: VoxelContent) -> bool {
        if self.nodes.item(key) is Internal {
            self.harvested_leaf(key, base)
        } else {
            base == self.nodes.item(key)
        }
    }

    /// Turns a divided node into a leaf: each child that is a uniform leaf gives its brick
    /// to the sectant it stands for, all other children are lost, and the nodes below the
    /// node are freed.
    pub fn harvest_children(&mut self, node_key: usize)
        requires
            old(self).wf(),
            old(self).nodes.valid(node_key as int),
            old(self).nodes.item(node_key as int) is Internal,
        ensures
            final(self).wf(),
            final(self).nodes.slots() == old(self).nodes.slots(),
            final(self).nodes.valid(node_key as int),
            final(self).nodes.item(node_key as int) is Leaf,
            old(self).harvested_leaf(node_key as int, final(self).nodes.item(node_key as int)),
            forall|s: int|
                0 <= s < 64 ==> !final(self).nodes.valid(
                    #[trigger] old(self).node_children[node_key as int].child_key(s),
                ),
            final(self).node_bounds@[node_key as int] == old(self).node_bounds@[node_key as int],
            final(self).node_parents@[node_key as int] == old(self).node_parents@[node_key as int],
            old(self).changed_inside(final(self), old(self).node_bounds@[node_key as int]),
    {
        let ghost region = self.node_bounds@[node_key as int];
        let mut bricks: Vec<ChunkData> = Vec::new();
        let mut sectant: u8 = 0;
        while sectant < 64
            invariant
                sectant <= 64,
                self.wf(),
                self.nodes.slots() == old(self).nodes.slots(),
                self.nodes.valid(node_key as int),
                bricks.len() == sectant,
                *self == *old(self),
                forall|s: int|
                    0 <= s < sectant ==> self.stands_for_child(
                        node_key as int,
                        s,
                        #[trigger] bricks[s],
                    ),
                forall|s: int|
                    0 <= s < sectant ==> (#[trigger] bricks[s]).wf(self.dim())
                        && bricks[s].in_palettes(
                        self.voxel_color_palette.len() as int,
                        self.voxel_data_palette.len() as int,
                    ),
            decreases 64 - sectant,
        {
            let child: usize = self.node_children[node_key].child(sectant);
            let brick: ChunkData = self.try_chunk_from_node(child);
            bricks.push(brick);
            sectant += 1;
        }
        let ghost before = *self;
        self.deallocate_children_of(node_key);
        let ghost between = *self;
        self.put_content(node_key, VoxelContent::Leaf(bricks));
        proof {
            before.lemma_changed_inside_trans(&between, self, region, region);
        }
    }

    /// Updates the given node to be a leaf, and writes the value into it. The update covers
    /// the brick of the target sectant at most; it starts at the position and reaches as far
    /// as the size of the update and the brick allow. A divided node becomes a leaf first, made
    /// of the bricks of those of its children that are uniform leaves. A uniform leaf that
    /// holds the value at the position already is not written into.
    /// Returns the number of cells updated along the x axis.
    pub fn leaf_update(
        &mut self,
        overwrite_if_empty: bool,
        node_key: usize,
        node_bounds: &Cube,
        target_bounds: &Cube,
        target_child_sectant: usize,
        position: &V3c<u32>,
        size: u32,
        target_content: PaletteIndexValues,
    ) -> (update_size: usize)
        requires
            old(self).wf(),
            old(self).nodes.valid(node_key as int),
            *node_bounds == old(self).node_bounds@[node_key as int],
            target_child_sectant < 64,
            *target_bounds == node_bounds.child_cube(target_child_sectant as int),
            target_bounds.contains_point(position.x as int, position.y as int, position.z as int),
            index_in_palettes(
                target_content,
                old(self).voxel_color_palette.len() as int,
                old(self).voxel_data_palette.len() as int,
            ),
        ensures
            final(self).wf(),
            final(self).nodes.slots() == old(self).nodes.slots(),
            final(self).nodes.valid(node_key as int),
            final(self).node_bounds@[node_key as int] == *node_bounds,
            final(self).node_parents@[node_key as int] == old(self).node_parents@[node_key as int],
            old(self).changed_inside(final(self), *node_bounds),
            !(final(self).nodes.item(node_key as int) is Internal),
            // what the node holds afterwards, and the number returned
            exists|base: VoxelContent| #[trigger]
                old(self).write_base(node_key as int, base) && crate::leaf::leaf_updated(
                    final(self).nodes.item(node_key as int),
                    update_size as int,
                    base,
                    *node_bounds,
                    target_child_sectant as int,
                    old(self).dim(),
                    overwrite_if_empty,
                    target_content,
                    position.x as int,
                    position.y as int,
                    position.z as int,
                    size as int,
                ),
            old(self).nodes.item(node_key as int) is Internal ==> forall|s: int|
                0 <= s < 64 ==> !final(self).nodes.valid(
                    #[trigger] old(self).node_children[node_key as int].child_key(s),
                ),
            !(old(self).nodes.item(node_key as int) is Internal) ==> old(self).changed_node(
                final(self),
                node_key as int,
            ) && crate::leaf::voxels_kept_or_written(
                final(self).nodes.item(node_key as int),
                old(self).nodes.item(node_key as int),
                *node_bounds,
                old(self).dim(),
                overwrite_if_empty,
                target_content,
            ),
            (size == 1 && node_bounds.size == 4 * old(self).chunk_dim && !(old(self).nodes.item(
                node_key as int,
            ) is Internal)) ==> single_voxel_written(
                final(self).nodes.item(node_key as int),
                old(self).nodes.item(node_key as int),
                *node_bounds,
                old(self).dim(),
                overwrite_if_empty,
                target_content,
                position.x as int,
                position.y as int,
                position.z as int,
            ),
            (size >= 1 && overwrite_if_empty) ==> content_voxel(
                final(self).nodes.item(node_key as int),
                *node_bounds,
                old(self).dim(),
                position.x as int,
                position.y as int,
                position.z as int,
            ) == target_content,
    {
        proof {
            self.lemma_update_palettes_ok(target_content);
            assert(self.node_ok(node_key as int));
            lemma_node_size(node_bounds.size as int, self.dim());
            lemma_sectant_of_child_point(
                *node_bounds,
                target_child_sectant as int,
                position.x as int,
                position.y as int,
                position.z as int,
            );
        }
        let is_divided: bool = match self.nodes.get(node_key) {
            VoxelContent::Internal(_) => true,
            _ => false,
        };
        if is_divided {
            // calling leaf update on a divided node loses the data of its divided children
            self.harvest_children(node_key);
        }
        let ghost harvested = *self;
        assert(self.node_ok(node_key as int));
        assert(old(self).write_base(node_key as int, harvested.nodes.item(node_key as int)));
        let content: VoxelContent = self.take_content(node_key);
        let ghost taken = *self;
        let updated: (VoxelContent, usize) = Self::update_leaf_content(
            content,
            overwrite_if_empty,
            self.chunk_dim,
            &self.voxel_color_palette,
            &self.voxel_data_palette,
            node_bounds,
            target_bounds,
            target_child_sectant,
            position,
            size,
            target_content,
        );
        self.put_content(node_key, updated.0);
        proof {
            harvested.lemma_changed_inside_trans(&taken, self, *node_bounds, *node_bounds);
            old(self).lemma_changed_inside_trans(&harvested, self, *node_bounds, *node_bounds);
            harvested.lemma_changed_node_trans(&taken, self, node_key as int);
        }
        updated.1
    }

    /// What holds of the child in a sectant of a node that was divided: a sectant whose
    /// brick was empty has no child, or a child that holds nothing; any other sectant has a
    /// child that is a uniform leaf with the brick of the sectant.
    pub open spec fn divided_sectant(
        &self,
        key: int,
        region: Cube,
        sectant: int,
        brick: ChunkData,
    ) -> bool {
        let child = self.node_children[key].child_key(sectant);
        if child == EMPTY_MARKER {
            brick is Empty
        } else {
            &&& self.nodes.valid(child)
            &&& self.node_bounds@[child] == region.child_cube(sectant)
            &&& self.nodes.item(child) == (if brick is Empty {
                VoxelContent::Nothing
            } else {
                VoxelContent::UniformLeaf(brick)
            })
        }
    }

    /// Divides a leaf into nodes: the node becomes a divided node, and each of its bricks
    /// that is not empty becomes a child that is a uniform leaf; the target sectant gets a
    /// child in any case. The tree shows the same values afterwards.
    /// Returns false, without a change, if the keys left do not suffice.
    pub fn subdivide_leaf_to_nodes(&mut self, node_key: usize, target_sectant: usize) -> (r: bool)
        requires
            old(self).wf(),
            old(self).nodes.valid(node_key as int),
            old(self).nodes.item(node_key as int).is_leaf_kind(),
            old(self).node_bounds@[node_key as int].size > 4 * old(self).dim(),
            target_sectant < 64,
        ensures
            final(self).wf(),
            final(self).nodes.valid(node_key as int),
            final(self).node_bounds@[node_key as int] == old(self).node_bounds@[node_key as int],
            final(self).node_parents@[node_key as int] == old(self).node_parents@[node_key as int],
            old(self).changed_inside(final(self), old(self).node_bounds@[node_key as int]),
            final(self).nodes.slots() <= old(self).nodes.slots() + 64,
            !r ==> old(self).nodes.slots() > DIVISIBLE_SLOTS && old(self).same_node_in(
                final(self),
                node_key as int,
            ) && old(self).changed_node(final(self), node_key as int),
            r ==> {
                &&& final(self).nodes.item(node_key as int) is Internal
                &&& final(self).node_children[node_key as int].child_key(target_sectant as int)
                    != EMPTY_MARKER
                &&& !(final(self).nodes.item(
                    final(self).node_children[node_key as int].child_key(target_sectant as int),
                ) is Internal)
                &&& forall|x: int, y: int, z: int|
                    old(self).node_bounds@[node_key as int].contains_point(x, y, z)
                        ==> #[trigger] final(self).voxel_in(
                        node_key as int,
                        old(self).node_bounds@[node_key as int],
                        x,
                        y,
                        z,
                    ) == old(self).voxel_in(
                        node_key as int,
                        old(self).node_bounds@[node_key as int],
                        x,
                        y,
                        z,
                    )
            },
    {
        let ghost region = self.node_bounds@[node_key as int];
        let ghost hangs = self.node_parents@[node_key as int];
        let ghost colors = self.voxel_color_palette.len() as int;
        let ghost more = self.voxel_data_palette.len() as int;
        let ghost dim = self.dim();
        proof {
            self.lemma_changed_inside_refl(region);
            self.lemma_update_palettes_ok(EMPTY_MARKER);
            assert(self.node_ok(node_key as int));
            lemma_node_size(region.size as int, dim);
        }
        if self.nodes.len() > DIVISIBLE_SLOTS {
            return false;
        }
        let ghost first_slots = self.nodes.slots();
        let content: VoxelContent = self.take_content(node_key);
        let ghost taken = *self;
        let mut bricks: Vec<ChunkData> = leaf_bricks_of(
            content,
            self.chunk_dim,
            Ghost(region),
            Ghost(colors),
            Ghost(more),
        );
        let ghost given = bricks;
        self.make_internal(node_key);
        proof {
            old(self).lemma_changed_inside_trans(&taken, self, region, region);
        }
        let mut sectant: u8 = 0;
        while sectant < 64
            invariant
                sectant <= 64,
                target_sectant < 64,
                self.wf(),
                dim == self.dim(),
                usable_dimension(dim),
                colors == self.voxel_color_palette.len(),
                more == self.voxel_data_palette.len(),
                self.nodes.valid(node_key as int),
                self.nodes.item(node_key as int) is Internal,
                self.node_bounds@[node_key as int] == region,
                self.node_parents@[node_key as int] == hangs,
                region == old(self).node_bounds@[node_key as int],
                old(self).changed_inside(self, region),
                self.nodes.slots() <= first_slots + sectant,
                first_slots <= DIVISIBLE_SLOTS,
                bricks.len() == 64,
                given.len() == 64,
                VoxelContent::Leaf(given).wf(dim),
                VoxelContent::Leaf(given).in_palettes(colors, more),
                forall|s: int| sectant <= s < 64 ==> bricks[s] == given[s],
                forall|s: int|
                    sectant <= s < 64 ==> self.node_children[node_key as int].child_key(s)
                        == EMPTY_MARKER,
                forall|s: int|
                    0 <= s < sectant ==> #[trigger] self.divided_sectant(
                        node_key as int,
                        region,
                        s,
                        given[s],
                    ),
                sectant > target_sectant ==> self.node_children[node_key as int].child_key(
                    target_sectant as int,
                ) != EMPTY_MARKER,
            decreases 64 - sectant,
        {
            let mut brick: ChunkData = ChunkData::Empty;
            core::mem::swap(&mut bricks[sectant as usize], &mut brick);
            assert(brick == given[sectant as int]);
            assert(given[sectant as int].wf(dim));
            assert(given[sectant as int].in_palettes(colors, more));
            let child_content: Option<VoxelContent> = match brick {
                ChunkData::Empty => if sectant as usize == target_sectant {
                    Some(VoxelContent::Nothing)
                } else {
                    None
                },
                other => Some(VoxelContent::UniformLeaf(other)),
            };
            let ghost before = *self;
            if let Some(new_content) = child_content {
                let added: Option<usize> = self.add_child(
                    node_key,
                    sectant,
                    new_content,
                );
                proof {
                    old(self).lemma_changed_inside_trans(&before, self, region, region);
                    assert forall|s: int| 0 <= s < sectant implies #[trigger] self.divided_sectant(
                        node_key as int,
                        region,
                        s,
                        given[s],
                    ) by {
                        assert(before.divided_sectant(node_key as int, region, s, given[s]));
                        let child = before.node_children[node_key as int].child_key(s);
                        if child != EMPTY_MARKER {
                            assert(before.same_node_in(self, child));
                        }
                    }
                }
            }
            assert(self.divided_sectant(
                node_key as int,
                region,
                sectant as int,
                given[sectant as int],
            ));
            sectant += 1;
        }
        proof {
            assert forall|x: int, y: int, z: int|
                region.contains_point(x, y, z) implies #[trigger] self.voxel_in(
                node_key as int,
                region,
                x,
                y,
                z,
            ) == old(self).voxel_in(node_key as int, region, x, y, z) by {
                lemma_child_cube_contains(region, x, y, z);
                let s = region.sectant_of(x, y, z);
                assert(self.divided_sectant(node_key as int, region, s, given[s]));
                assert(content_voxel(VoxelContent::Leaf(given), region, dim, x, y, z)
                    == content_voxel(content, region, dim, x, y, z));
                self.lemma_voxel_of_internal(node_key as int, region, x, y, z);
                let child = self.node_children[node_key as int].child_key(s);
                if child != EMPTY_MARKER {
                    self.lemma_voxel_of_leaf(child, region.child_cube(s), x, y, z);
                }
            }
            assert(self.divided_sectant(
                node_key as int,
                region,
                target_sectant as int,
                given[target_sectant as int],
            ));
        }
        true
    }
}

/// A power of two up to 1024 is a brick dimension that bricks can be spread and indexed with.
pub proof fn lemma_usable_dimension(dim: int)
    requires
        brick_dimension_ok(dim),
    ensures
        usable_dimension(dim),
{
    lemma_power_of_two_positive(dim);
    if dim != 1 && dim != 2 {
        assert(is_power_of_two(dim / 2));
        lemma_power_of_two_positive(dim / 2);
        if dim / 2 != 1 {
            assert((dim / 2) % 2 == 0);
        }
    }
}

} // verus!
