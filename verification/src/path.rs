//! Simplification along the path from the root to a position.
use vstd::prelude::*;
use crate::arena::cube_inside;
use crate::compaction::{content_flat, content_flat_with, lemma_same_content_flat};
use crate::spatial::{child_sectant_for, Cube, V3c};
use crate::tree::{lemma_node_size, lemma_power_of_two_positive, Contree};
use crate::types::{PaletteIndexValues, VoxelContent, VoxelData, EMPTY_MARKER};

verus! {

impl<T: VoxelData> Contree<T> {
    /// The other tree is this tree after the simplification of the nodes on the path from
    /// the given node down to the position. Where the node is divided and has a child that
    /// holds the position, the path below that child is simplified first, and the child is
    /// freed if it holds nothing then; the node itself is simplified after that, but only
    /// if the child was simplified. Any other node is simplified itself.
    pub open spec fn path_simplified(
        &self,
        after: &Self,
        key: int,
        px: int,
        py: int,
        pz: int,
        simplified: bool,
    ) -> bool
        decreases self.node_bounds@[key].size,
    {
        let sectant = self.node_bounds@[key].sectant_of(px, py, pz);
        let child = self.node_children[key].child_key(sectant);
        if self.nodes.item(key) is Internal && self.nodes.valid(child) {
            &&& self.node_bounds@[child].size < self.node_bounds@[key].size
            &&& exists|below: Self, cleaned: Self|
                {
                    &&& #[trigger] below.child_cleaned(&cleaned, key, sectant)
                    &&& ((self.path_simplified(&below, child, px, py, pz, true)
                        && cleaned.simplified_from(after, key, false, simplified)) || (
                    self.path_simplified(&below, child, px, py, pz, false) && !simplified
                        && *after == cleaned))
                }
        } else {
            self.simplified_from(after, key, false, simplified)
        }
    }

    /// Simplifies the nodes on the path from the given node down to the position, from
    /// the lowest node upwards, for as long as the nodes can be simplified; children that hold
    /// nothing afterwards are freed.
    ///
    /// The node shows the same values afterwards at every position.
    ///
    /// Returns true if the given node was simplified.
    pub fn simplify_path(&mut self, node_key: usize, node_bounds: &Cube,
        position: &V3c<u32>) -> (simplified:
        bool)
        requires
            old(self).wf(),
            old(self).nodes.valid(node_key as int),
            *node_bounds == old(self).node_bounds@[node_key as int],
            node_bounds.contains_point(position.x as int, position.y as int, position.z as int),
        ensures
            final(self).wf(),
            final(self).nodes.slots() == old(self).nodes.slots(),
            final(self).nodes.valid(node_key as int),
            final(self).node_bounds@[node_key as int] == *node_bounds,
            final(self).node_parents@[node_key as int] == old(self).node_parents@[node_key as int],
            old(self).changed_inside(final(self), *node_bounds),
            old(self).path_simplified(
                final(self),
                node_key as int,
                position.x as int,
                position.y as int,
                position.z as int,
                simplified,
            ),
            old(self).voxels_kept(final(self), node_key as int, *node_bounds),
        decreases node_bounds.size,
    {
        let ghost region = *node_bounds;
        let ghost dim = self.dim();
        let ghost px = position.x as int;
        let ghost py = position.y as int;
        let ghost pz = position.z as int;
        proof {
            assert(self.node_ok(node_key as int));
            self.lemma_node_geometry(node_key as int, px, py, pz);
            self.lemma_changed_inside_refl(region);
        }
        let is_divided: bool = match self.nodes.get(node_key) {
            VoxelContent::Internal(_) => true,
            _ => false,
        };
        let mut below_simplified: bool = true;
        let ghost mut went_below = false;
        let ghost mut below_tree = *self;
        if is_divided {
            let sectant: u8 = child_sectant_for(node_bounds, position);
            let target_bounds: Cube = node_bounds.child_bounds_for(sectant);
            let child: usize = self.node_children[node_key].child(sectant);
            if self.nodes.key_is_valid(child) {
                proof {
                    assert(self.link_ok(node_key as int, sectant as int));
                    self.lemma_child_bounds_ok(region, sectant as int);
                }
                below_simplified = self.simplify_path(child, &target_bounds, position);
                let ghost below = *self;
                proof {
                    assert(!cube_inside(region, target_bounds));
                    assert(old(self).same_node_in(&below, node_key as int));
                }
                let freed: bool = self.free_child_if_empty(node_key, sectant);
                proof {
                    went_below = true;
                    below_tree = below;
                    assert(below.child_cleaned(self, node_key as int, sectant as int));
                    old(self).lemma_changed_inside_trans(&below, self, region, region);
                    assert forall|x: int, y: int, z: int|
                        region.contains_point(x, y, z) implies #[trigger] self.voxel_in(
                        node_key as int,
                        region,
                        x,
                        y,
                        z,
                    ) == old(self).voxel_in(node_key as int, region, x, y, z) by {
                        old(self).lemma_step_kept(
                            &below,
                            node_key as int,
                            sectant as int,
                            x,
                            y,
                            z,
                        );
                        assert(self.voxel_in(node_key as int, region, x, y, z)
                            == below.voxel_in(node_key as int, region, x, y, z));
                    }
                }
            }
        }
        let ghost cleaned = *self;
        if !below_simplified {
            return false;
        }
        let simplified: bool = self.simplify(node_key, false);
        let ghost reduced = *self;
        proof {
            old(self).lemma_changed_inside_trans(&cleaned, &reduced, region, region);
            assert forall|x: int, y: int, z: int|
                region.contains_point(x, y, z) implies #[trigger] reduced.voxel_in(
                node_key as int,
                region,
                x,
                y,
                z,
            ) == old(self).voxel_in(node_key as int, region, x, y, z) by {
                assert(cleaned.voxel_in(node_key as int, region, x, y, z) == old(self).voxel_in(
                    node_key as int,
                    region,
                    x,
                    y,
                    z,
                ));
            }
        }
        simplified
    }
}

} // verus!
