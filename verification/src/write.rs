//! Writing into the tree: the walk from the root to the node that takes an update, and the
//! way back up, on which nodes are freed and simplified.
use vstd::prelude::*;
use crate::arena::cube_inside;
use crate::bitmap::bit_is_set;
use crate::brick_update::written_value;
use crate::compaction::{brick_flat, content_flat_with, lemma_flat_voxels};
use crate::leaf::{lemma_strict_empty, single_voxel_written, strict_palettes,
    voxels_kept_or_written};
use crate::types::Albedo;
use crate::palette::index_in_palettes;
use crate::spatial::{
    child_sectant_for, lemma_child_cube_contains, update_size_within, Cube, V3c,
};
use crate::tree::{content_voxel, lemma_node_size, lemma_power_of_two_positive, Contree};
use crate::types::{
    ChunkData, PaletteIndexValues, VoxelChildren, VoxelContent, VoxelData, EMPTY_MARKER,
};

verus! {

/// The cube of the first node, from the cube `bounds` on towards the position, whose
/// children are no larger than the update reaches.
pub open spec fn taking_cube(bounds: Cube, px: int, py: int, pz: int, reach: int) -> Cube
    decreases bounds.size,
{
    if bounds.size / 4 <= reach || bounds.size < 4 {
        bounds
    } else {
        taking_cube(bounds.child_cube(bounds.sectant_of(px, py, pz)), px, py, pz, reach)
    }
}

/// The number of children, along one axis, that an update of the given size reaches: the
/// size over the edge length of a child, rounded up.
pub open spec fn reached(update_size: int, target_size: int) -> int {
    (update_size + target_size - 1) / target_size
}

/// The greater of two numbers.
pub open spec fn max_int(a: int, b: int) -> int {
    if a > b {
        a
    } else {
        b
    }
}

/// The part of an update of a node that one of its sectants takes.
pub struct SectantUpdate {
    /// The sectant.
    pub sectant: int,
    /// The position at which the update of the sectant starts.
    pub x: int,
    /// The position at which the update of the sectant starts.
    pub y: int,
    /// The position at which the update of the sectant starts.
    pub z: int,
    /// The size of the update of the sectant.
    pub size: int,
}

/// The part that the sectant of the given round takes of an update of the given size that
/// starts at `(px, py, pz)` in a node with the given bounds. The update is cut off at the
/// faces of the node, its size the smallest that is left on any axis; it reaches as many
/// children along each axis as that size takes, rounded up, and the rounds go through them,
/// those along the z axis first. The first round is that of the sectant of the position,
/// with the update as it was asked for. In each other round the update starts where it
/// enters the sectant, with the size that is left of it there, the smallest on any axis. In
/// each round the update is cut off at the faces of the sectant, in the same way.
pub open spec fn round_update(bounds: Cube, px: int, py: int, pz: int, size: int,
    round: int) -> SectantUpdate {
    let target_size = bounds.size as int / 4;
    let count = reached(crate::spatial::clipped_size(bounds, px, py, pz, size), target_size);
    let sectant = bounds.sectant_of(
        px + target_size * (round / (count * count)),
        py + target_size * ((round / count) % count),
        pz + target_size * (round % count),
    );
    let target = bounds.child_cube(sectant);
    let x = if round == 0 {
        px
    } else {
        max_int(px, target.min_position.x as int)
    };
    let y = if round == 0 {
        py
    } else {
        max_int(py, target.min_position.y as int)
    };
    let z = if round == 0 {
        pz
    } else {
        max_int(pz, target.min_position.z as int)
    };
    let left = if round == 0 {
        size
    } else {
        crate::spatial::min_int(
            crate::spatial::min_int(size - (x - px), size - (y - py)),
            size - (z - pz),
        )
    };
    SectantUpdate { sectant, x, y, z, size: crate::spatial::clipped_size(target, x, y, z, left) }
}

/// The number of rounds of an update of a node: one for each sectant that it reaches.
pub open spec fn rounds_of(bounds: Cube, px: int, py: int, pz: int, size: int) -> int {
    let count = reached(
        crate::spatial::clipped_size(bounds, px, py, pz, size),
        bounds.size as int / 4,
    );
    count * count * count
}

/// The content after the given round of an update of a node is the content before it with
/// the part of the update written into it that the sectant of the round takes.
pub open spec fn round_written(
    steps: Seq<VoxelContent>,
    bounds: Cube,
    dim: int,
    overwrite: bool,
    data: PaletteIndexValues,
    px: int,
    py: int,
    pz: int,
    size: int,
    round: int,
) -> bool {
    let part = round_update(bounds, px, py, pz, size, round);
    exists|cells: int| #[trigger]
        crate::leaf::leaf_updated(
            steps[round + 1],
            cells,
            steps[round],
            bounds,
            part.sectant,
            dim,
            overwrite,
            data,
            part.x,
            part.y,
            part.z,
            part.size,
        )
}

/// The contents before an update and after each of its rounds, one round more.
pub proof fn lemma_round_done(
    steps_before: Seq<VoxelContent>,
    steps: Seq<VoxelContent>,
    base: VoxelContent,
    item: VoxelContent,
    cells: int,
    bounds: Cube,
    dim: int,
    overwrite: bool,
    data: PaletteIndexValues,
    px: int,
    py: int,
    pz: int,
    size: int,
    round: int,
)
    requires
        0 <= round,
        crate::leaf::leaf_updated(
            item,
            cells,
            base,
            bounds,
            round_update(bounds, px, py, pz, size, round).sectant,
            dim,
            overwrite,
            data,
            round_update(bounds, px, py, pz, size, round).x,
            round_update(bounds, px, py, pz, size, round).y,
            round_update(bounds, px, py, pz, size, round).z,
            round_update(bounds, px, py, pz, size, round).size,
        ),
        round == 0 ==> steps == Seq::<VoxelContent>::empty().push(base).push(item),
        round > 0 ==> steps == steps_before.push(item) && steps_before.len() == round + 1
            && steps_before[round] == base,
        forall|done: int|
            0 <= done < round ==> #[trigger] round_written(
                steps_before,
                bounds,
                dim,
                overwrite,
                data,
                px,
                py,
                pz,
                size,
                done,
            ),
    ensures
        steps.len() == round + 2,
        steps[round + 1] == item,
        steps[0] == (if round == 0 {
            base
        } else {
            steps_before[0]
        }),
        forall|done: int|
            0 <= done < round + 1 ==> #[trigger] round_written(
                steps,
                bounds,
                dim,
                overwrite,
                data,
                px,
                py,
                pz,
                size,
                done,
            ),
{
    assert(steps[round] == base);
    assert forall|done: int| 0 <= done < round + 1 implies #[trigger] round_written(
        steps,
        bounds,
        dim,
        overwrite,
        data,
        px,
        py,
        pz,
        size,
        done,
    ) by {
        if done < round {
            assert(round_written(steps_before, bounds, dim, overwrite, data, px, py, pz, size,
                done));
            assert(steps[done] == steps_before[done]);
            assert(steps[done + 1] == steps_before[done + 1]);
        }
    }
}

/// The contents are those of a node before an update and after each of its rounds.
pub open spec fn sectants_written(
    steps: Seq<VoxelContent>,
    bounds: Cube,
    dim: int,
    overwrite: bool,
    data: PaletteIndexValues,
    px: int,
    py: int,
    pz: int,
    size: int,
) -> bool {
    &&& steps.len() == 1 + rounds_of(bounds, px, py, pz, size)
    &&& forall|round: int|
        0 <= round < rounds_of(bounds, px, py, pz, size) ==> #[trigger] round_written(
            steps,
            bounds,
            dim,
            overwrite,
            data,
            px,
            py,
            pz,
            size,
            round,
        )
}

/// The number of children, along one axis, that an update of the given size reaches: the
/// size over the edge length of a child, rounded up.
pub fn children_reached(update_size: u32, target_size: u32) -> (count: u32)
    requires
        target_size > 0,
        0 < update_size <= 4 * target_size,
    ensures
        1 <= count <= 4,
        target_size * (count - 1) < update_size,
        update_size <= target_size * count,
        count == reached(update_size as int, target_size as int),
{
    let count: u64 = (update_size as u64 + target_size as u64 - 1) / (target_size as u64);
    assert(1 <= count <= 4 && target_size * (count - 1) < update_size && update_size <= target_size
        * count) by (nonlinear_arith)
        requires
            count as int == (update_size as int + target_size as int - 1) / (target_size as int),
            target_size > 0,
            0 < update_size <= 4 * target_size,
    ;
    count as u32
}

/// The number of levels of nodes in a cube of the given edge length, for the given brick
/// dimension: one for the nodes of four bricks, one more for each time the edge is four times
/// as long.
pub open spec fn levels(size: int, dim: int) -> int
    decreases size,
{
    if dim < 1 || size <= 4 * dim {
        1
    } else {
        1 + levels(size / 4, dim)
    }
}

/// Four to the given power.
pub open spec fn power_of_four(exponent: nat) -> int
    decreases exponent,
{
    if exponent == 0 {
        1
    } else {
        4 * power_of_four((exponent - 1) as nat)
    }
}

/// A cube whose edge is shorter than four to some power has no more levels than that power.
pub proof fn lemma_levels_bound(size: int, dim: int, exponent: nat)
    requires
        dim >= 1,
        exponent >= 1,
        size < power_of_four(exponent),
    ensures
        1 <= levels(size, dim) <= exponent,
    decreases exponent,
{
    if size > 4 * dim {
        assert(power_of_four(exponent) == 4 * power_of_four((exponent - 1) as nat));
        if exponent == 1 {
            assert(power_of_four(0) == 1);
        } else {
            lemma_levels_bound(size / 4, dim, (exponent - 1) as nat);
        }
    }
}

/// A cube whose edge fits into thirty-two bits has sixteen levels at most.
pub proof fn lemma_levels_of_tree(size: u32, dim: int)
    requires
        dim >= 1,
    ensures
        1 <= levels(size as int, dim) <= 16,
{
    assert(power_of_four(16) == 0x1_0000_0000) by {
        reveal_with_fuel(power_of_four, 17);
    }
    lemma_levels_bound(size as int, dim, 16);
}

impl<T: VoxelData> Contree<T> {
    /// Applies an update to every sectant of the node that the update reaches, the first
    /// being that of the position: each sectant takes the part of the update that lies in it,
    /// starting where the update enters the sectant. The update is cut off at the faces of the
    /// node, and its size is the same on all axes: the smallest that is left on any of them.
    /// Returns the edge length of the part of the node that was updated.
    #[verifier::rlimit(30)]
    pub fn execute_for_relevant_sectants(
        &mut self,
        overwrite_if_empty: bool,
        node_key: usize,
        node_bounds: &Cube,
        position: &V3c<u32>,
        update_size: u32,
        target_content: PaletteIndexValues,
    ) -> (updated_size: usize)
        requires
            old(self).wf(),
            old(self).nodes.valid(node_key as int),
            *node_bounds == old(self).node_bounds@[node_key as int],
            node_bounds.contains_point(position.x as int, position.y as int, position.z as int),
            update_size >= 1,
            index_in_palettes(
                target_content,
                old(self).voxel_color_palette.len() as int,
                old(self).voxel_data_palette.len() as int,
            ),
        ensures
            final(self).wf(),
            final(self).nodes.slots() == old(self).nodes.slots(),
            final(self).nodes.valid(node_key as int),
            final(self).node_bounds@[node_key as int] == *node_bounds,
            final(self).node_parents@[node_key as int] == old(self).node_parents@[node_key as int],
            old(self).changed_inside(final(self), *node_bounds),
            !(final(self).nodes.item(node_key as int) is Internal),
            // what the node holds afterwards: what it held, or for a divided node the leaf that
            // its children gave, with the update written into it sectant by sectant
            exists|steps: Seq<VoxelContent>|
                {
                    &&& #[trigger] sectants_written(
                        steps,
                        *node_bounds,
                        old(self).dim(),
                        overwrite_if_empty,
                        target_content,
                        position.x as int,
                        position.y as int,
                        position.z as int,
                        update_size as int,
                    )
                    &&& old(self).write_base(node_key as int, steps[0])
                    &&& steps.last() == final(self).nodes.item(node_key as int)
                },
            updated_size == (node_bounds.size / 4) * reached(
                crate::spatial::clipped_size(
                    *node_bounds,
                    position.x as int,
                    position.y as int,
                    position.z as int,
                    update_size as int,
                ),
                node_bounds.size as int / 4,
            ),
            !(old(self).nodes.item(node_key as int) is Internal) ==> old(self).changed_node(
                final(self),
                node_key as int,
            ),
            (update_size == 1 && node_bounds.size == 4 * old(self).chunk_dim
                && !(old(self).nodes.item(node_key as int) is Internal)) ==> single_voxel_written(
                final(self).nodes.item(node_key as int),
                old(self).nodes.item(node_key as int),
                *node_bounds,
                old(self).dim(),
                overwrite_if_empty,
                target_content,
                position.x as int,
                position.y as int,
                position.z as int,
            ),
            overwrite_if_empty ==> content_voxel(
                final(self).nodes.item(node_key as int),
                *node_bounds,
                old(self).dim(),
                position.x as int,
                position.y as int,
                position.z as int,
            ) == target_content,
    {
        let ghost dim = self.dim();
        let ghost hangs = self.node_parents@[node_key as int];
        proof {
            assert(self.node_ok(node_key as int));
            lemma_power_of_two_positive(dim);
            lemma_node_size(node_bounds.size as int, dim);
            self.lemma_changed_inside_refl(*node_bounds);
            self.lemma_changed_node_refl(node_key as int);
        }
        let target_size: u32 = node_bounds.size / 4;
        let clipped: u32 = update_size_within(node_bounds, position, update_size);
        let count: u32 = children_reached(clipped, target_size);
        assert(1 <= count * count <= 16 && 1 <= count * count * count <= 64) by (nonlinear_arith)
            requires
                1 <= count <= 4,
        ;
        let square: u32 = count * count;
        let rounds: u32 = square * count;
        assert(update_size == 1 ==> count == 1) by (nonlinear_arith)
            requires
                target_size * (count - 1) < clipped,
                clipped <= update_size,
                target_size >= 1,
                count >= 1,
        ;
        assert(count == 1 ==> rounds == 1) by (nonlinear_arith)
            requires
                square == count * count,
                rounds == square * count,
        ;
        let mut round: u32 = 0;
        let ghost mut steps: Seq<VoxelContent> = Seq::empty();
        let ghost px = position.x as int;
        let ghost py = position.y as int;
        let ghost pz = position.z as int;
        while round < rounds
            invariant
                round <= rounds,
                count == reached(clipped as int, target_size as int),
                rounds == rounds_of(*node_bounds, px, py, pz, update_size as int),
                px == position.x && py == position.y && pz == position.z,
                round > 0 ==> {
                    &&& steps.len() == round + 1
                    &&& old(self).write_base(node_key as int, steps[0])
                    &&& steps[round as int] == self.nodes.item(node_key as int)
                    &&& forall|done: int|
                        0 <= done < round ==> #[trigger] round_written(
                            steps,
                            *node_bounds,
                            dim,
                            overwrite_if_empty,
                            target_content,
                            px,
                            py,
                            pz,
                            update_size as int,
                            done,
                        )
                },
                1 <= count <= 4,
                1 <= square <= 16,
                square == count * count,
                rounds == count * count * count,
                count == 1 ==> rounds == 1,
                update_size == 1 ==> count == 1,
                self.wf(),
                self.nodes.slots() == old(self).nodes.slots(),
                old(self).wf(),
                dim == self.dim(),
                dim == old(self).dim(),
                dim >= 1,
                self.nodes.valid(node_key as int),
                old(self).nodes.valid(node_key as int),
                self.node_bounds@[node_key as int] == *node_bounds,
                *node_bounds == old(self).node_bounds@[node_key as int],
                self.node_parents@[node_key as int] == hangs,
                node_bounds.wf(),
                node_bounds.size % 4 == 0,
                node_bounds.size >= 4 * dim,
                target_size == node_bounds.size / 4,
                node_bounds.contains_point(position.x as int, position.y as int, position.z as int),
                clipped == crate::spatial::clipped_size(
                    *node_bounds,
                    position.x as int,
                    position.y as int,
                    position.z as int,
                    update_size as int,
                ),
                update_size >= 1,
                target_size * (count - 1) < clipped,
                index_in_palettes(
                    target_content,
                    self.voxel_color_palette.len() as int,
                    self.voxel_data_palette.len() as int,
                ),
                old(self).changed_inside(self, *node_bounds),
                round == 0 ==> *self == *old(self),
                round > 0 ==> !(self.nodes.item(node_key as int) is Internal),
                !(old(self).nodes.item(node_key as int) is Internal) ==> old(self).changed_node(
                    self,
                    node_key as int,
                ),
                (round == 1 && update_size == 1 && node_bounds.size == 4 * dim
                    && !(old(self).nodes.item(node_key as int) is Internal))
                    ==> single_voxel_written(
                    self.nodes.item(node_key as int),
                    old(self).nodes.item(node_key as int),
                    *node_bounds,
                    dim,
                    overwrite_if_empty,
                    target_content,
                    position.x as int,
                    position.y as int,
                    position.z as int,
                ),
                (round > 0 && overwrite_if_empty) ==> content_voxel(
                    self.nodes.item(node_key as int),
                    *node_bounds,
                    dim,
                    position.x as int,
                    position.y as int,
                    position.z as int,
                ) == target_content,
            decreases rounds - round,
        {
            let x: u32 = round / square;
            let y: u32 = (round / count) % count;
            let z: u32 = round % count;
            assert(round == 0 ==> x == 0 && y == 0 && z == 0) by (nonlinear_arith)
                requires
                    x as int == (round as int) / (square as int),
                    y as int == ((round as int) / (count as int)) % (count as int),
                    z as int == (round as int) % (count as int),
                    square >= 1,
                    count >= 1,
            ;
            assert(x < count) by (nonlinear_arith)
                requires
                    x as int == (round as int) / (square as int),
                    square as int == (count as int) * (count as int),
                    (round as int) < (count as int) * (count as int) * (count as int),
                    count >= 1,
            ;
            assert(target_size * x <= target_size * (count - 1) && target_size * y <= target_size
                * (count - 1) && target_size * z <= target_size * (count - 1)) by (nonlinear_arith)
                requires
                    x < count,
                    y < count,
                    z < count,
            ;
            let shifted: V3c<u32> = V3c {
                x: position.x + target_size * x,
                y: position.y + target_size * y,
                z: position.z + target_size * z,
            };
            assert(x == 0 && y == 0 && z == 0 ==> shifted == *position) by (nonlinear_arith)
                requires
                    shifted.x == position.x + target_size * x,
                    shifted.y == position.y + target_size * y,
                    shifted.z == position.z + target_size * z,
            ;
            let target_child_sectant: u8 = child_sectant_for(node_bounds, &shifted);
            let target_bounds: Cube = node_bounds.child_bounds_for(target_child_sectant);
            proof {
                lemma_child_cube_contains(
                    *node_bounds,
                    shifted.x as int,
                    shifted.y as int,
                    shifted.z as int,
                );
            }
            let first: bool = 0 == x && 0 == y && 0 == z;
            let position_in_target: V3c<u32> = if first {
                *position
            } else {
                // the update starts where it enters the target
                V3c {
                    x: if position.x > target_bounds.min_position.x {
                        position.x
                    } else {
                        target_bounds.min_position.x
                    },
                    y: if position.y > target_bounds.min_position.y {
                        position.y
                    } else {
                        target_bounds.min_position.y
                    },
                    z: if position.z > target_bounds.min_position.z {
                        position.z
                    } else {
                        target_bounds.min_position.z
                    },
                }
            };
            let size_left: u32 = if first {
                update_size
            } else {
                let left_x: u32 = update_size - (position_in_target.x - position.x);
                let left_y: u32 = update_size - (position_in_target.y - position.y);
                let left_z: u32 = update_size - (position_in_target.z - position.z);
                let mut left: u32 = left_x;
                if left_y < left {
                    left = left_y;
                }
                if left_z < left {
                    left = left_z;
                }
                left
            };
            let update_size_in_target: u32 = update_size_within(
                &target_bounds,
                &position_in_target,
                size_left,
            );
            let ghost before = *self;
            let written: usize = self.leaf_update(
                overwrite_if_empty,
                node_key,
                node_bounds,
                &target_bounds,
                target_child_sectant as usize,
                &position_in_target,
                update_size_in_target,
                target_content,
            );
            proof {
                let part = round_update(*node_bounds, px, py, pz, update_size as int, round as int);
                assert(part.sectant == target_child_sectant);
                assert(part.x == position_in_target.x && part.y == position_in_target.y && part.z
                    == position_in_target.z);
                assert(part.size == update_size_in_target);
                let base = choose|base: VoxelContent| #[trigger]
                    before.write_base(node_key as int, base) && crate::leaf::leaf_updated(
                        self.nodes.item(node_key as int),
                        written as int,
                        base,
                        *node_bounds,
                        target_child_sectant as int,
                        dim,
                        overwrite_if_empty,
                        target_content,
                        position_in_target.x as int,
                        position_in_target.y as int,
                        position_in_target.z as int,
                        update_size_in_target as int,
                    );
                let steps_before = steps;
                if round == 0 {
                    steps = Seq::empty().push(base).push(self.nodes.item(node_key as int));
                } else {
                    assert(base == steps[round as int]);
                    steps = steps.push(self.nodes.item(node_key as int));
                }
                lemma_round_done(
                    steps_before,
                    steps,
                    base,
                    self.nodes.item(node_key as int),
                    written as int,
                    *node_bounds,
                    dim,
                    overwrite_if_empty,
                    target_content,
                    px,
                    py,
                    pz,
                    update_size as int,
                    round as int,
                );
                old(self).lemma_changed_inside_trans(&before, self, *node_bounds, *node_bounds);
                if !(old(self).nodes.item(node_key as int) is Internal) {
                    old(self).lemma_changed_node_trans(&before, self, node_key as int);
                }
                if round > 0 && overwrite_if_empty {
                    crate::leaf::lemma_written_same(overwrite_if_empty, target_content);
                    assert(content_voxel(
                        self.nodes.item(node_key as int),
                        *node_bounds,
                        dim,
                        position.x as int,
                        position.y as int,
                        position.z as int,
                    ) == target_content);
                }
                if round == 0 {
                    assert(first);
                }
            }
            round += 1;
        }
        proof {
            assert(round == rounds && round > 0);
            assert(sectants_written(
                steps,
                *node_bounds,
                dim,
                overwrite_if_empty,
                target_content,
                px,
                py,
                pz,
                update_size as int,
            ));
            assert(steps.last() == self.nodes.item(node_key as int));
        }
        assert(4 * target_size <= u32::MAX);
        assert(target_size * count <= u32::MAX) by (nonlinear_arith)
            requires
                4 * target_size <= u32::MAX,
                count <= 4,
        ;
        (target_size * count) as usize
    }

    /// The node shows after the update of a single voxel the written value at the position,
    /// and at every other position what it showed before.
    pub open spec fn written_at(
        &self,
        after: &Self,
        key: int,
        region: Cube,
        overwrite: bool,
        data: PaletteIndexValues,
        px: int,
        py: int,
        pz: int,
    ) -> bool {
        forall|x: int, y: int, z: int|
            region.contains_point(x, y, z) ==> #[trigger] after.voxel_in(key, region, x, y, z) == (
            if x == px && y == py && z == pz {
                written_value(overwrite, self.voxel_in(key, region, x, y, z), data)
            } else {
                self.voxel_in(key, region, x, y, z)
            })
    }

    /// The node has no child in the sectant, or a child that holds something, or that is
    /// divided itself.
    pub open spec fn no_empty_child(&self, key: int, sectant: int) -> bool {
        let child = self.node_children[key].child_key(sectant);
        self.nodes.valid(child) ==> !self.nodes.item(child).empty(
            self.voxel_color_palette@,
            self.voxel_data_palette@,
        )
    }

    /// The last node on the path from the node `key`, whose cube is `bounds`, towards the
    /// position, and its cube: the node that has no child for the position.
    pub open spec fn path_end(&self, key: int, bounds: Cube, px: int, py: int, pz: int) -> (
        int,
        Cube,
    )
        decreases bounds.size,
    {
        let sectant = bounds.sectant_of(px, py, pz);
        let child = self.node_children[key].child_key(sectant);
        if self.nodes.valid(child) && bounds.size >= 4 {
            self.path_end(child, bounds.child_cube(sectant), px, py, pz)
        } else {
            (key, bounds)
        }
    }

    /// The write into the node stops before anything is written if the position holds the
    /// value already: the path from the node to the position ends at a node whose children
    /// are larger than the update reaches.
    pub open spec fn write_stops(&self, key: int, bounds: Cube, px: int, py: int, pz: int,
        reach: int) -> bool {
        self.path_end(key, bounds, px, py, pz).1.size / 4 > reach
    }

    /// The cube of the node that takes the write into the node `key`: the cube of the last
    /// node on the path to the position, if its children are no larger than the update
    /// reaches; else the cube of the first node below it, towards the position, of which
    /// that holds. Such a node is made by the write.
    pub open spec fn taker_cube(&self, key: int, bounds: Cube, px: int, py: int, pz: int,
        reach: int) -> Cube {
        taking_cube(self.path_end(key, bounds, px, py, pz).1, px, py, pz, reach)
    }

    /// The write into the node `key` is taken by one node on the path to the position; its
    /// cube is `taker_cube`. The contents are those of that node before the update and after
    /// each of its rounds. The first is what a write into the node starts from, if the node
    /// was a node of the tree before; a node that the write made shows at first what the tree
    /// showed in its cube. The last is what the tree shows in the cube afterwards. Outside
    /// of the cube the tree shows what it showed.
    pub open spec fn taken_by(
        &self,
        after: &Self,
        key: int,
        bounds: Cube,
        steps: Seq<VoxelContent>,
        overwrite: bool,
        data: PaletteIndexValues,
        px: int,
        py: int,
        pz: int,
        size: int,
    ) -> bool {
        let reach = max_int(size, self.dim());
        let end = self.path_end(key, bounds, px, py, pz);
        let cube = self.taker_cube(key, bounds, px, py, pz, reach);
        &&& sectants_written(steps, cube, self.dim(), overwrite, data, px, py, pz, size)
        &&& if end.1.size / 4 <= reach {
            self.write_base(end.0, steps[0])
        } else {
            forall|x: int, y: int, z: int|
                cube.contains_point(x, y, z) ==> #[trigger] content_voxel(
                    steps[0],
                    cube,
                    self.dim(),
                    x,
                    y,
                    z,
                ) == self.voxel_in(key, bounds, x, y, z)
        }
        &&& forall|x: int, y: int, z: int|
            bounds.contains_point(x, y, z) ==> #[trigger] after.voxel_in(key, bounds, x, y, z)
                == (if cube.contains_point(x, y, z) {
                content_voxel(steps.last(), cube, self.dim(), x, y, z)
            } else {
                self.voxel_in(key, bounds, x, y, z)
            })
    }

    /// What a write into the node does to what the tree shows. Where the position holds the
    /// value already, and the path to it ends above the nodes that would take the update,
    /// nothing changes. Else one node on the path takes the update.
    pub open spec fn bulk_written(
        &self,
        after: &Self,
        key: int,
        bounds: Cube,
        overwrite: bool,
        data: PaletteIndexValues,
        px: int,
        py: int,
        pz: int,
        size: int,
    ) -> bool {
        if self.write_stops(key, bounds, px, py, pz, max_int(size, self.dim())) && written_value(
            overwrite,
            self.voxel_in(key, bounds, px, py, pz),
            data,
        ) == self.voxel_in(key, bounds, px, py, pz) {
            self.voxels_kept(after, key, bounds)
        } else {
            exists|steps: Seq<VoxelContent>| #[trigger]
                self.taken_by(after, key, bounds, steps, overwrite, data, px, py, pz, size)
        }
    }

    /// The cube of the node that takes a write lies inside the cube of the node that the
    /// write goes into, and holds the position.
    pub proof fn lemma_taker_cube(&self, key: int, px: int, py: int, pz: int, reach: int)
        requires
            self.wf(),
            self.nodes.valid(key),
            self.node_bounds@[key].contains_point(px, py, pz),
            reach >= self.dim(),
        ensures
            cube_inside(
                self.taker_cube(key, self.node_bounds@[key], px, py, pz, reach),
                self.node_bounds@[key],
            ),
            self.taker_cube(key, self.node_bounds@[key], px, py, pz, reach).contains_point(
                px,
                py,
                pz,
            ),
            self.nodes.valid(self.path_end(key, self.node_bounds@[key], px, py, pz).0),
            self.node_bounds@[self.path_end(key, self.node_bounds@[key], px, py, pz).0]
                == self.path_end(key, self.node_bounds@[key], px, py, pz).1,
            self.bounds_ok(self.taker_cube(key, self.node_bounds@[key], px, py, pz, reach)),
            self.path_end(key, self.node_bounds@[key], px, py, pz).1.contains_point(px, py, pz),
            self.voxel_in(key, self.node_bounds@[key], px, py, pz) == self.voxel_in(
                self.path_end(key, self.node_bounds@[key], px, py, pz).0,
                self.path_end(key, self.node_bounds@[key], px, py, pz).1,
                px,
                py,
                pz,
            ),
        decreases self.node_bounds@[key].size,
    {
        let bounds = self.node_bounds@[key];
        let sectant = bounds.sectant_of(px, py, pz);
        let child = self.node_children[key].child_key(sectant);
        self.lemma_node_geometry(key, px, py, pz);
        assert(self.node_ok(key));
        if self.nodes.valid(child) && bounds.size >= 4 {
            assert(self.nodes.item(key) is Internal);
            assert(self.link_ok(key, sectant));
            self.lemma_child_bounds_ok(bounds, sectant);
            self.lemma_taker_cube(child, px, py, pz, reach);
            self.lemma_voxel_of_internal(key, bounds, px, py, pz);
        } else {
            self.lemma_taking_cube(bounds, px, py, pz, reach);
        }
    }

    /// The cube of a node that a write makes lies inside the cube that it starts from, and
    /// holds the position.
    pub proof fn lemma_taking_cube(&self, bounds: Cube, px: int, py: int, pz: int, reach: int)
        requires
            self.dim() >= 1,
            self.bounds_ok(bounds),
            bounds.contains_point(px, py, pz),
            reach >= self.dim(),
        ensures
            cube_inside(taking_cube(bounds, px, py, pz, reach), bounds),
            taking_cube(bounds, px, py, pz, reach).contains_point(px, py, pz),
            self.bounds_ok(taking_cube(bounds, px, py, pz, reach)),
        decreases bounds.size,
    {
        lemma_node_size(bounds.size as int, self.dim());
        if !(bounds.size / 4 <= reach || bounds.size < 4) {
            lemma_child_cube_contains(bounds, px, py, pz);
            let sectant = bounds.sectant_of(px, py, pz);
            self.lemma_child_bounds_ok(bounds, sectant);
            self.lemma_taking_cube(bounds.child_cube(sectant), px, py, pz, reach);
        }
    }

    /// A write that a node at or below the child of a divided node took is a write that the
    /// node took for the divided node too. The child was a node of the tree before the
    /// write; or the write made it, in a tree `before` that showed what this tree shows.
    pub proof fn lemma_taken_lifts(
        &self,
        before: &Self,
        below: &Self,
        after: &Self,
        key: int,
        sectant: int,
        steps: Seq<VoxelContent>,
        overwrite: bool,
        data: PaletteIndexValues,
        px: int,
        py: int,
        pz: int,
        size: int,
    )
        requires
            self.wf(),
            below.wf(),
            before.wf(),
            self.nodes.valid(key),
            before.nodes.valid(key),
            before.node_bounds@[key] == self.node_bounds@[key],
            self.nodes.item(key) is Internal,
            self.same_node_in(below, key),
            self.node_bounds@[key].contains_point(px, py, pz),
            sectant == self.node_bounds@[key].sectant_of(px, py, pz),
            self.nodes.valid(self.node_children[key].child_key(sectant)),
            self.changed_inside(below, self.node_bounds@[key].child_cube(sectant)),
            self.taken_by(
                below,
                self.node_children[key].child_key(sectant),
                self.node_bounds@[key].child_cube(sectant),
                steps,
                overwrite,
                data,
                px,
                py,
                pz,
                size,
            ),
            before.dim() == self.dim(),
            before.voxels_kept(self, key, self.node_bounds@[key]),
            below.voxels_kept(after, key, self.node_bounds@[key]),
            // the child was a node before, or the write made it
            *before == *self || {
                &&& !before.nodes.valid(before.node_children[key].child_key(sectant))
                &&& self.node_bounds@[key].size / 4 > max_int(size, self.dim())
                &&& !(self.nodes.item(self.node_children[key].child_key(sectant)) is Internal)
            },
        ensures
            before.taken_by(
                after,
                key,
                self.node_bounds@[key],
                steps,
                overwrite,
                data,
                px,
                py,
                pz,
                size,
            ),
    {
        let bounds = self.node_bounds@[key];
        let target = bounds.child_cube(sectant);
        let child = self.node_children[key].child_key(sectant);
        let dim = self.dim();
        let reach = max_int(size, dim);
        self.lemma_node_geometry(key, px, py, pz);
        assert(self.node_ok(key));
        assert(self.link_ok(key, sectant));
        lemma_node_size(bounds.size as int, dim);
        self.lemma_child_bounds_ok(bounds, sectant);
        self.lemma_taker_cube(child, px, py, pz, reach);
        let end = self.path_end(child, target, px, py, pz);
        let cube = self.taker_cube(child, target, px, py, pz, reach);
        assert(cube_inside(cube, target));
        assert(before.taker_cube(key, bounds, px, py, pz, reach) == cube) by {
            if *before != *self {
                assert(self.node_ok(child));
                assert(!self.nodes.valid(EMPTY_MARKER as int));
                assert(!self.nodes.valid(
                    self.node_children[child].child_key(target.sectant_of(px, py, pz)),
                ));
            }
        }
        assert forall|x: int, y: int, z: int|
            bounds.contains_point(x, y, z) implies #[trigger] after.voxel_in(key, bounds, x, y, z)
            == (if cube.contains_point(x, y, z) {
            content_voxel(steps.last(), cube, dim, x, y, z)
        } else {
            before.voxel_in(key, bounds, x, y, z)
        }) by {
            self.lemma_step(below, key, sectant, x, y, z);
            assert(after.voxel_in(key, bounds, x, y, z) == below.voxel_in(key, bounds, x, y, z));
            assert(self.voxel_in(key, bounds, x, y, z) == before.voxel_in(key, bounds, x, y, z));
            if target.contains_point(x, y, z) {
                crate::semantics::lemma_sectant_of_child_point(bounds, sectant, x, y, z);
                assert(below.voxel_in(child, target, x, y, z) == (if cube.contains_point(x, y, z) {
                    content_voxel(steps.last(), cube, dim, x, y, z)
                } else {
                    self.voxel_in(child, target, x, y, z)
                }));
            } else {
                lemma_child_cube_contains(bounds, x, y, z);
            }
        }
        if *before != *self {
            // the write made the node that took it
            assert(before.path_end(key, bounds, px, py, pz) == (key, bounds));
            assert forall|x: int, y: int, z: int|
                cube.contains_point(x, y, z) implies #[trigger] content_voxel(
                steps[0],
                cube,
                dim,
                x,
                y,
                z,
            ) == before.voxel_in(key, bounds, x, y, z) by {
                assert(target.contains_point(x, y, z));
                crate::semantics::lemma_sectant_of_child_point(bounds, sectant, x, y, z);
                self.lemma_step(below, key, sectant, x, y, z);
                assert(self.voxel_in(key, bounds, x, y, z) == before.voxel_in(key, bounds, x, y,
                    z));
                if end.1.size / 4 <= reach {
                    assert(end == (child, target));
                    assert(steps[0] == self.nodes.item(child));
                    self.lemma_voxel_of_leaf(child, target, x, y, z);
                }
            }
        } else {
            if !(end.1.size / 4 <= reach) {
                assert forall|x: int, y: int, z: int|
                    cube.contains_point(x, y, z) implies #[trigger] content_voxel(
                    steps[0],
                    cube,
                    dim,
                    x,
                    y,
                    z,
                ) == before.voxel_in(key, bounds, x, y, z) by {
                    assert(target.contains_point(x, y, z));
                    crate::semantics::lemma_sectant_of_child_point(bounds, sectant, x, y, z);
                    self.lemma_step(below, key, sectant, x, y, z);
                }
            }
        }
    }

    /// Tells whether the node holds nothing to show or to tell. A divided node never counts
    /// as empty.
    pub fn node_holds_nothing(&self, node_key: usize) -> (r: bool)
        requires
            self.wf(),
            self.nodes.valid(node_key as int),
        ensures
            r == self.nodes.item(node_key as int).empty(
                self.voxel_color_palette@,
                self.voxel_data_palette@,
            ),
    {
        assert(self.node_ok(node_key as int));
        self.nodes.get(node_key).is_empty(&self.voxel_color_palette, &self.voxel_data_palette)
    }

    /// The other tree is this tree without the child in the given sectant of the divided
    /// node: the child is a node no longer, and the node keeps no key for the sectant; a node
    /// that had no other child holds nothing afterwards. All other nodes are as they were.
    pub open spec fn child_freed(&self, after: &Self, key: int, sectant: int) -> bool {
        let child = self.node_children[key].child_key(sectant);
        &&& !after.nodes.valid(child)
        &&& forall|other: int| other != child
            ==> after.nodes.valid(other) == self.nodes.valid(other)
        &&& forall|other: int|
            self.nodes.valid(other) && other != key && other != child
                ==> #[trigger] self.same_node_in(after, other)
        &&& if forall|s: int|
            0 <= s < 64 && s != sectant ==> self.node_children[key].child_key(s) == EMPTY_MARKER {
            after.nodes.item(key) is Nothing
        } else {
            &&& after.nodes.item(key) is Internal
            &&& forall|s: int|
                0 <= s < 64 ==> after.node_children[key].child_key(s) == (if s == sectant {
                    EMPTY_MARKER as int
                } else {
                    self.node_children[key].child_key(s)
                })
        }
    }

    /// The other tree is this tree after the child in the given sectant of the divided node
    /// was freed if it held nothing: without that child then, and the same tree else.
    pub open spec fn empty_child_freed(
        &self,
        after: &Self,
        key: int,
        sectant: int,
        freed: bool,
    ) -> bool {
        let child = self.node_children[key].child_key(sectant);
        if self.nodes.item(child).empty(self.voxel_color_palette@, self.voxel_data_palette@) {
            freed && self.child_freed(after, key, sectant)
        } else {
            !freed && *after == *self
        }
    }

    /// The other tree is this tree after the child in the given sectant of the divided node
    /// was looked at, and freed if it held nothing.
    pub open spec fn child_cleaned(&self, after: &Self, key: int, sectant: int) -> bool {
        self.empty_child_freed(after, key, sectant, true) || self.empty_child_freed(
            after,
            key,
            sectant,
            false,
        )
    }

    /// Frees the child in the given sectant of a divided node if the child holds nothing.
    /// The node shows the same values afterwards. Returns true if the child was freed.
    pub fn free_child_if_empty(&mut self, key: usize, sectant: u8) -> (freed: bool)
        requires
            old(self).wf(),
            old(self).nodes.valid(key as int),
            old(self).nodes.item(key as int) is Internal,
            sectant < 64,
            old(self).node_children[key as int].child_key(sectant as int) != EMPTY_MARKER,
        ensures
            final(self).wf(),
            final(self).nodes.slots() == old(self).nodes.slots(),
            final(self).nodes.valid(key as int),
            final(self).node_bounds@[key as int] == old(self).node_bounds@[key as int],
            final(self).node_parents@[key as int] == old(self).node_parents@[key as int],
            old(self).changed_inside(final(self), old(self).node_bounds@[key as int]),
            old(self).voxels_kept(final(self), key as int, old(self).node_bounds@[key as int]),
            old(self).empty_child_freed(final(self), key as int, sectant as int, freed),
            forall|other: int|
                old(self).nodes.valid(other) && other != key
                    && other != old(self).node_children[key as int].child_key(sectant as int)
                    ==> #[trigger] old(self).same_node_in(final(self), other),
    {
        let ghost region = self.node_bounds@[key as int];
        let ghost dim = self.dim();
        proof {
            assert(self.node_ok(key as int));
            assert(self.link_ok(key as int, sectant as int));
            lemma_power_of_two_positive(dim);
            lemma_node_size(region.size as int, dim);
            self.lemma_changed_inside_refl(region);
        }
        let child: usize = self.node_children[key].child(sectant);
        if !self.node_holds_nothing(child) {
            return false;
        }
        self.free_child(key, sectant);
        proof {
            let content = old(self).nodes.item(child as int);
            assert(old(self).node_ok(child as int));
            lemma_empty_is_flat(
                content,
                old(self).voxel_color_palette@,
                old(self).voxel_data_palette@,
            );
            old(self).lemma_child_bounds_ok(region, sectant as int);
            lemma_node_size(region.child_cube(sectant as int).size as int, dim);
            assert forall|x: int, y: int, z: int|
                region.contains_point(x, y, z) implies #[trigger] self.voxel_in(
                key as int,
                region,
                x,
                y,
                z,
            ) == old(self).voxel_in(key as int, region, x, y, z) by {
                lemma_child_cube_contains(region, x, y, z);
                let s = region.sectant_of(x, y, z);
                old(self).lemma_voxel_of_internal(key as int, region, x, y, z);
                assert(old(self).link_ok(key as int, s));
                let other_child = old(self).node_children[key as int].child_key(s);
                if s == sectant {
                    old(self).lemma_voxel_of_leaf(child as int, region.child_cube(s), x, y, z);
                    lemma_flat_voxels(content, EMPTY_MARKER, region.child_cube(s), dim, x, y, z);
                }
                if self.nodes.item(key as int) is Internal {
                    self.lemma_voxel_of_internal(key as int, region, x, y, z);
                    if s != sectant {
                        assert forall|m: int|
                            old(self).nodes.valid(m) && cube_inside(
                                old(self).node_bounds@[m],
                                region.child_cube(s),
                            ) implies #[trigger] old(self).same_node_in(self, m) by {
                            assert(old(self).node_ok(m));
                            lemma_node_size(old(self).node_bounds@[m].size as int, dim);
                            if m == child {
                                crate::semantics::lemma_inside_one_child(
                                    region,
                                    old(self).node_bounds@[m],
                                    s,
                                    sectant as int,
                                );
                            }
                        }
                        old(self).lemma_voxel_frame(self, other_child, region.child_cube(s), x, y,
                            z);
                    } else {
                        assert(self.voxel_in(
                            EMPTY_MARKER as int,
                            region.child_cube(s),
                            x,
                            y,
                            z,
                        ) == EMPTY_MARKER);
                    }
                } else {
                    self.lemma_voxel_of_leaf(key as int, region, x, y, z);
                    if s != sectant {
                        assert(other_child == EMPTY_MARKER);
                        assert(old(self).voxel_in(
                            EMPTY_MARKER as int,
                            region.child_cube(s),
                            x,
                            y,
                            z,
                        ) == EMPTY_MARKER);
                    }
                }
            }
        }
        true
    }

    /// Tells whether the given sectant of the node holds nothing to show or to tell:
    /// the brick of the sectant in a leaf, the part of the brick that lies in the sectant in a
    /// uniform leaf, and the child of the sectant in a divided node, where a missing child and
    /// a child that is itself not divided and holds nothing count as nothing.
    pub fn node_empty_at(&self, node_key: usize, target_sectant: u8) -> (r: bool)
        requires
            self.wf(),
            self.nodes.valid(node_key as int),
            target_sectant < 64,
        ensures
            r == self.empty_at(node_key as int, target_sectant as int),
    {
        proof {
            assert(self.node_ok(node_key as int));
            self.lemma_update_palettes_ok(EMPTY_MARKER);
        }
        match self.nodes.get(node_key) {
            VoxelContent::Nothing => true,
            VoxelContent::Leaf(bricks) => {
                assert(bricks[target_sectant as int].in_palettes(
                    self.voxel_color_palette.len() as int,
                    self.voxel_data_palette.len() as int,
                ));
                bricks[target_sectant as usize].contains_nothing(
                    &self.voxel_color_palette,
                    &self.voxel_data_palette,
                )
            },
            VoxelContent::UniformLeaf(brick) => {
                let bits: u64 = brick.calculate_occupied_bits(
                    self.chunk_dim as usize,
                    &self.voxel_color_palette,
                    &self.voxel_data_palette,
                );
                !crate::bitmap::bit_at(bits, target_sectant)
            },
            VoxelContent::Internal(_) => {
                assert(self.link_ok(node_key as int, target_sectant as int));
                let child: usize = self.node_children[node_key].child(target_sectant);
                if !self.nodes.key_is_valid(child) {
                    true
                } else {
                    self.node_holds_nothing(child)
                }
            },
        }
    }

    /// The given sectant of the node holds nothing to show or to tell.
    pub open spec fn empty_at(&self, key: int, sectant: int) -> bool {
        match self.nodes.item(key) {
            VoxelContent::Nothing => true,
            VoxelContent::Leaf(bricks) => bricks[sectant].nothing(
                self.voxel_color_palette@,
                self.voxel_data_palette@,
            ),
            VoxelContent::UniformLeaf(brick) => exists|bits: u64|
                #[trigger] brick.occupied_bits_are(
                    bits,
                    self.dim(),
                    self.voxel_color_palette@,
                    self.voxel_data_palette@,
                ) && !bit_is_set(bits, sectant),
            VoxelContent::Internal(_) => !self.nodes.valid(
                self.node_children[key].child_key(sectant),
            ) || self.nodes.item(self.node_children[key].child_key(sectant)).empty(
                self.voxel_color_palette@,
                self.voxel_data_palette@,
            ),
        }
    }

    /// The value of a voxel after `data` was written to it.
    pub fn written(overwrite: bool, previous: PaletteIndexValues, data: PaletteIndexValues) -> (r:
        PaletteIndexValues)
        ensures
            r == written_value(overwrite, previous, data),
    {
        if overwrite {
            return data;
        }
        proof {
            crate::palette::lemma_index_halves(previous);
            crate::palette::lemma_index_halves(data);
            crate::palette::lemma_packed_halves(
                crate::palette::color_index_of(data),
                crate::palette::data_index_of(previous),
            );
            crate::palette::lemma_packed_halves(
                crate::palette::color_index_of(previous),
                crate::palette::data_index_of(data),
            );
            crate::palette::lemma_packed_halves(
                crate::palette::color_index_of(data),
                crate::palette::data_index_of(data),
            );
        }
        let mut value: PaletteIndexValues = previous;
        if VoxelContent::pix_color_is_some(&data) {
            value = VoxelContent::pix_overwrite_color(value, &data);
        }
        if VoxelContent::pix_data_is_some(&data) {
            value = VoxelContent::pix_overwrite_data(value, &data);
        }
        value
    }

    /// Writes a value into the subtree of a node: walks down to the node whose children
    /// are no larger than the update, dividing the leaves on the way and adding the nodes that
    /// are missing, and applies the update there; on the way back, children that hold nothing
    /// are freed. Where the position holds the value already, or there is nothing to take a
    /// value away from, the subtree stays as it is.
    /// Fails if the keys left do not suffice for the nodes to add; the subtree shows the same
    /// values then.
    #[verifier::rlimit(60)]
    pub fn write_node(
        &mut self,
        overwrite_if_empty: bool,
        node_key: usize,
        node_bounds: &Cube,
        position: &V3c<u32>,
        size: u32,
        target_content: PaletteIndexValues,
    ) -> (r: Result<(), ()>)
        requires
            old(self).wf(),
            old(self).nodes.valid(node_key as int),
            *node_bounds == old(self).node_bounds@[node_key as int],
            node_bounds.contains_point(position.x as int, position.y as int, position.z as int),
            size >= 1,
            index_in_palettes(
                target_content,
                old(self).voxel_color_palette.len() as int,
                old(self).voxel_data_palette.len() as int,
            ),
        ensures
            final(self).wf(),
            final(self).nodes.valid(node_key as int),
            final(self).node_bounds@[node_key as int] == *node_bounds,
            final(self).node_parents@[node_key as int] == old(self).node_parents@[node_key as int],
            old(self).changed_inside(final(self), *node_bounds),
            final(self).nodes.slots() >= old(self).nodes.slots(),
            final(self).nodes.slots() <= old(self).nodes.slots() + 64 * levels(
                node_bounds.size as int,
                old(self).dim(),
            ),
            r is Err ==> final(self).nodes.slots() > crate::update::DIVISIBLE_SLOTS
                && old(self).voxels_kept(final(self), node_key as int, *node_bounds),
            // a child on the way to the position that holds nothing afterwards is freed
            final(self).nodes.item(node_key as int) is Internal ==> final(self).no_empty_child(
                node_key as int,
                node_bounds.sectant_of(position.x as int, position.y as int, position.z as int),
            ),
            r is Ok ==> old(self).bulk_written(
                final(self),
                node_key as int,
                *node_bounds,
                overwrite_if_empty,
                target_content,
                position.x as int,
                position.y as int,
                position.z as int,
                size as int,
            ),
            (r is Ok && size == 1) ==> old(self).written_at(
                final(self),
                node_key as int,
                *node_bounds,
                overwrite_if_empty,
                target_content,
                position.x as int,
                position.y as int,
                position.z as int,
            ),
            (r is Ok && overwrite_if_empty) ==> final(self).voxel_in(
                node_key as int,
                *node_bounds,
                position.x as int,
                position.y as int,
                position.z as int,
            ) == target_content,
        decreases node_bounds.size,
    {
        let ghost region = *node_bounds;
        let ghost dim = self.dim();
        let ghost px = position.x as int;
        let ghost py = position.y as int;
        let ghost pz = position.z as int;
        proof {
            assert(self.node_ok(node_key as int));
            self.lemma_node_geometry(node_key as int, px, py, pz);
            self.lemma_changed_inside_refl(region);
            crate::leaf::lemma_written_same(overwrite_if_empty, target_content);
            lemma_levels_of_tree(node_bounds.size, dim);
            lemma_levels_of_tree(node_bounds.size / 4, dim);
        }
        let sectant: u8 = child_sectant_for(node_bounds, position);
        let target_bounds: Cube = node_bounds.child_bounds_for(sectant);
        let known_child: usize = self.node_children[node_key].child(sectant);
        let child_is_node: bool = self.nodes.key_is_valid(known_child);
        let reach: u32 = if size > self.chunk_dim {
            size
        } else {
            self.chunk_dim
        };
        if !(target_bounds.size > reach || child_is_node) {
            // the children of the node are no larger than the update
            let ghost was_divided = self.nodes.item(node_key as int) is Internal;
            let updated: usize = self.execute_for_relevant_sectants(
                overwrite_if_empty,
                node_key,
                node_bounds,
                position,
                size,
                target_content,
            );
            proof {
                self.lemma_voxel_of_leaf(node_key as int, region, px, py, pz);
                if size == 1 {
                    assert(node_bounds.size == 4 * dim);
                    assert(!was_divided);
                    assert forall|x: int, y: int, z: int|
                        region.contains_point(x, y, z) implies #[trigger] self.voxel_in(
                        node_key as int,
                        region,
                        x,
                        y,
                        z,
                    ) == (if x == px && y == py && z == pz {
                        written_value(
                            overwrite_if_empty,
                            old(self).voxel_in(node_key as int, region, x, y, z),
                            target_content,
                        )
                    } else {
                        old(self).voxel_in(node_key as int, region, x, y, z)
                    }) by {
                        self.lemma_voxel_of_leaf(node_key as int, region, x, y, z);
                        old(self).lemma_voxel_of_leaf(node_key as int, region, x, y, z);
                        assert(content_voxel(
                            self.nodes.item(node_key as int),
                            region,
                            dim,
                            x,
                            y,
                            z,
                        ) == (if x == px && y == py && z == pz {
                            written_value(
                                overwrite_if_empty,
                                content_voxel(
                                    old(self).nodes.item(node_key as int),
                                    region,
                                    dim,
                                    x,
                                    y,
                                    z,
                                ),
                                target_content,
                            )
                        } else {
                            content_voxel(
                                old(self).nodes.item(node_key as int),
                                region,
                                dim,
                                x,
                                y,
                                z,
                            )
                        }));
                    }
                }
            }
            proof {
                let steps = choose|steps: Seq<VoxelContent>|
                    {
                        &&& #[trigger] sectants_written(
                            steps,
                            region,
                            dim,
                            overwrite_if_empty,
                            target_content,
                            px,
                            py,
                            pz,
                            size as int,
                        )
                        &&& old(self).write_base(node_key as int, steps[0])
                        &&& steps.last() == self.nodes.item(node_key as int)
                    };
                assert(old(self).path_end(node_key as int, region, px, py, pz) == (
                    node_key as int,
                    region,
                ));
                assert(taking_cube(region, px, py, pz, reach as int) == region);
                assert(!old(self).write_stops(node_key as int, region, px, py, pz, reach as int));
                assert forall|x: int, y: int, z: int|
                    region.contains_point(x, y, z) implies #[trigger] self.voxel_in(
                    node_key as int,
                    region,
                    x,
                    y,
                    z,
                ) == content_voxel(steps.last(), region, dim, x, y, z) by {
                    self.lemma_voxel_of_leaf(node_key as int, region, x, y, z);
                }
                assert(old(self).taken_by(
                    self,
                    node_key as int,
                    region,
                    steps,
                    overwrite_if_empty,
                    target_content,
                    px,
                    py,
                    pz,
                    size as int,
                ));
            }
            return Ok(());
        }
        let ghost start = *self;
        if !child_is_node {
            proof {
                if self.nodes.item(node_key as int) is Internal {
                    assert(self.link_ok(node_key as int, sectant as int));
                }
                assert(self.voxel_in(
                    EMPTY_MARKER as int,
                    region.child_cube(sectant as int),
                    px,
                    py,
                    pz,
                ) == EMPTY_MARKER);
                if self.nodes.item(node_key as int) is Internal {
                    self.lemma_voxel_of_internal(node_key as int, region, px, py, pz);
                } else {
                    self.lemma_voxel_of_leaf(node_key as int, region, px, py, pz);
                }
            }
            let present: PaletteIndexValues = self.get_internal(node_key, *node_bounds, position);
            if Self::written(overwrite_if_empty, present, target_content) == present {
                // the position holds the value already
                proof {
                    assert(old(self).write_stops(
                        node_key as int,
                        region,
                        px,
                        py,
                        pz,
                        reach as int,
                    ));
                }
                return Ok(());
            }
            let is_leaf: bool = match self.nodes.get(node_key) {
                VoxelContent::Leaf(_) => true,
                VoxelContent::UniformLeaf(_) => true,
                _ => false,
            };
            if is_leaf {
                // the leaf is divided into nodes that show the same values
                if !self.subdivide_leaf_to_nodes(node_key, sectant as usize) {
                    return Err(());
                }
            } else {
                let is_nothing: bool = match self.nodes.get(node_key) {
                    VoxelContent::Nothing => true,
                    _ => false,
                };
                if is_nothing {
                    self.make_internal(node_key);
                }
                let ghost divided = *self;
                proof {
                    assert(start.changed_inside(&divided, region));
                }
                let added: Option<usize> = self.add_child(
                    node_key,
                    sectant,
                    VoxelContent::Nothing,
                );
                proof {
                    start.lemma_changed_inside_trans(&divided, self, region, region);
                    start.lemma_added_child_kept(&divided, self, node_key as int, sectant as int);
                }
                if added.is_none() {
                    return Err(());
                }
            }
        }
        let ghost prepared = *self;
        proof {
            assert(start.voxels_kept(&prepared, node_key as int, region));
            assert(self.node_ok(node_key as int));
            assert(self.link_ok(node_key as int, sectant as int));
            self.lemma_child_bounds_ok(region, sectant as int);
        }
        let child: usize = self.node_children[node_key].child(sectant);
        let written: Result<(), ()> = self.write_node(
            overwrite_if_empty,
            child,
            &target_bounds,
            position,
            size,
            target_content,
        );
        let ghost below = *self;
        proof {
            assert(!cube_inside(region, target_bounds));
            assert(prepared.same_node_in(&below, node_key as int));
            start.lemma_changed_inside_trans(&prepared, &below, target_bounds, region);
        }
        let freed: bool = self.free_child_if_empty(node_key, sectant);
        proof {
            start.lemma_changed_inside_trans(&below, self, region, region);
            assert forall|x: int, y: int, z: int|
                region.contains_point(x, y, z) implies #[trigger] self.voxel_in(
                node_key as int,
                region,
                x,
                y,
                z,
            ) == (if written is Ok && size == 1 && x == px && y == py && z == pz {
                written_value(
                    overwrite_if_empty,
                    old(self).voxel_in(node_key as int, region, x, y, z),
                    target_content,
                )
            } else if written is Ok && size != 1 {
                self.voxel_in(node_key as int, region, x, y, z)
            } else {
                old(self).voxel_in(node_key as int, region, x, y, z)
            }) by {
                prepared.lemma_step(&below, node_key as int, sectant as int, x, y, z);
                assert(below.voxel_in(node_key as int, region, x, y, z) == self.voxel_in(
                    node_key as int,
                    region,
                    x,
                    y,
                    z,
                ));
                assert(prepared.voxel_in(node_key as int, region, x, y, z) == old(self).voxel_in(
                    node_key as int,
                    region,
                    x,
                    y,
                    z,
                ));
                if region.sectant_of(x, y, z) == sectant {
                    assert(target_bounds.contains_point(x, y, z));
                }
            }
            if written is Ok && overwrite_if_empty {
                prepared.lemma_step(&below, node_key as int, sectant as int, px, py, pz);
                assert(below.voxel_in(node_key as int, region, px, py, pz) == self.voxel_in(
                    node_key as int,
                    region,
                    px,
                    py,
                    pz,
                ));
            }
            if written is Ok {
                prepared.lemma_step(&below, node_key as int, sectant as int, px, py, pz);
                assert(prepared.voxel_in(child as int, target_bounds, px, py, pz)
                    == old(self).voxel_in(node_key as int, region, px, py, pz));
                let held = written_value(
                    overwrite_if_empty,
                    old(self).voxel_in(node_key as int, region, px, py, pz),
                    target_content,
                ) == old(self).voxel_in(node_key as int, region, px, py, pz);
                if child_is_node {
                    assert(prepared == *old(self));
                    assert(old(self).path_end(node_key as int, region, px, py, pz) == old(
                        self,
                    ).path_end(child as int, target_bounds, px, py, pz));
                } else {
                    assert(!held);
                    assert(!old(self).nodes.valid(
                        old(self).node_children[node_key as int].child_key(sectant as int),
                    ));
                    assert(!(prepared.nodes.item(child as int) is Internal));
                }
                if prepared.write_stops(child as int, target_bounds, px, py, pz, reach as int)
                    && held {
                    assert forall|x: int, y: int, z: int|
                        region.contains_point(x, y, z) implies #[trigger] self.voxel_in(
                        node_key as int,
                        region,
                        x,
                        y,
                        z,
                    ) == old(self).voxel_in(node_key as int, region, x, y, z) by {
                        prepared.lemma_step_kept(
                            &below,
                            node_key as int,
                            sectant as int,
                            x,
                            y,
                            z,
                        );
                        assert(below.voxel_in(node_key as int, region, x, y, z) == self.voxel_in(
                            node_key as int,
                            region,
                            x,
                            y,
                            z,
                        ));
                    }
                } else {
                    let steps = choose|steps: Seq<VoxelContent>| #[trigger]
                        prepared.taken_by(
                            &below,
                            child as int,
                            target_bounds,
                            steps,
                            overwrite_if_empty,
                            target_content,
                            px,
                            py,
                            pz,
                            size as int,
                        );
                    assert(below.voxels_kept(self, node_key as int, region));
                    prepared.lemma_taken_lifts(
                        old(self),
                        &below,
                        self,
                        node_key as int,
                        sectant as int,
                        steps,
                        overwrite_if_empty,
                        target_content,
                        px,
                        py,
                        pz,
                        size as int,
                    );
                }
            }
        }
        written
    }

    /// A child that holds nothing, added to a divided node without children in that
    /// sectant, shows nothing; the node shows the same values as before.
    pub proof fn lemma_added_child_kept(&self, divided: &Self, after: &Self, key: int, sectant: int)
        requires
            self.wf(),
            divided.wf(),
            after.wf(),
            self.nodes.valid(key),
            0 <= sectant < 64,
            !(self.nodes.item(key) is Internal) ==> self.nodes.item(key) is Nothing,
            self.changed_node(divided, key),
            divided.nodes.item(key) is Internal,
            self.nodes.item(key) is Internal ==> self.same_node_in(divided, key),
            self.nodes.item(key) is Nothing ==> forall|s: int|
                0 <= s < 64 ==> divided.node_children[key].child_key(s) == EMPTY_MARKER,
            divided.node_children[key].child_key(sectant) == EMPTY_MARKER,
            (divided.changed_node(after, key) && divided.same_node_in(after, key)) || {
                let child = after.node_children[key].child_key(sectant);
                &&& after.same_settings_as(divided)
                &&& child != EMPTY_MARKER
                &&& after.nodes.valid(child)
                &&& !divided.nodes.valid(child)
                &&& after.nodes.item(child) is Nothing
                &&& after.nodes.valid(key)
                &&& after.nodes.item(key) is Internal
                &&& after.node_bounds@[key] == divided.node_bounds@[key]
                &&& forall|s: int|
                    0 <= s < 64 && s != sectant ==> after.node_children[key].child_key(s)
                        == divided.node_children[key].child_key(s)
                &&& forall|other: int|
                    divided.nodes.valid(other) && other != key ==> #[trigger] divided.same_node_in(
                        after,
                        other,
                    )
            },
        ensures
            self.voxels_kept(after, key, self.node_bounds@[key]),
    {
        let region = self.node_bounds@[key];
        let dim = self.dim();
        assert(self.node_ok(key));
        assert(divided.node_ok(key));
        lemma_power_of_two_positive(dim);
        lemma_node_size(region.size as int, dim);
        assert forall|x: int, y: int, z: int|
            region.contains_point(x, y, z) implies #[trigger] after.voxel_in(key, region, x, y, z)
            == self.voxel_in(key, region, x, y, z) by {
            lemma_child_cube_contains(region, x, y, z);
            let s = region.sectant_of(x, y, z);
            // the node showed nothing in the sectant before
            divided.lemma_voxel_of_internal(key, region, x, y, z);
            if self.nodes.item(key) is Nothing {
                self.lemma_voxel_of_leaf(key, region, x, y, z);
                assert(divided.voxel_in(EMPTY_MARKER as int, region.child_cube(s), x, y, z)
                    == EMPTY_MARKER);
            } else {
                self.lemma_voxel_of_internal(key, region, x, y, z);
                assert(self.link_ok(key, s));
                let other_child = self.node_children[key].child_key(s);
                assert forall|m: int|
                    self.nodes.valid(m) && cube_inside(
                        self.node_bounds@[m],
                        region.child_cube(s),
                    ) implies #[trigger] self.same_node_in(divided, m) by {
                    assert(self.node_ok(m));
                    lemma_node_size(self.node_bounds@[m].size as int, dim);
                }
                self.lemma_voxel_frame(divided, other_child, region.child_cube(s), x, y, z);
            }
            assert(divided.voxel_in(key, region, x, y, z) == self.voxel_in(key, region, x, y, z));
            if divided.changed_node(after, key) && divided.same_node_in(after, key) {
                assert forall|m: int|
                    divided.nodes.valid(m) && cube_inside(
                        divided.node_bounds@[m],
                        region,
                    ) implies #[trigger] divided.same_node_in(after, m) by {}
                divided.lemma_voxel_frame(after, key, region, x, y, z);
            } else {
                after.lemma_voxel_of_internal(key, region, x, y, z);
                let new_child = after.node_children[key].child_key(sectant);
                if s == sectant {
                    after.lemma_voxel_of_leaf(new_child, region.child_cube(s), x, y, z);
                    assert(divided.voxel_in(EMPTY_MARKER as int, region.child_cube(s), x, y, z)
                        == EMPTY_MARKER);
                } else {
                    assert(divided.link_ok(key, s));
                    let other_child = divided.node_children[key].child_key(s);
                    assert forall|m: int|
                        divided.nodes.valid(m) && cube_inside(
                            divided.node_bounds@[m],
                            region.child_cube(s),
                        ) implies #[trigger] divided.same_node_in(after, m) by {
                        assert(divided.node_ok(m));
                        lemma_node_size(divided.node_bounds@[m].size as int, dim);
                    }
                    divided.lemma_voxel_frame(after, other_child, region.child_cube(s), x, y, z);
                }
            }
        }
    }
}

/// With palettes that hold nothing transparent and nothing empty, a content that holds
/// nothing to show or to tell holds the empty marker in all its voxels.
pub proof fn lemma_empty_is_flat<V: VoxelData>(
    content: VoxelContent,
    colors: Seq<Albedo>,
    data: Seq<V>,
)
    requires
        strict_palettes(colors, data),
        content.in_palettes(colors.len() as int, data.len() as int),
        content.empty(colors, data),
    ensures
        content_flat_with(content, EMPTY_MARKER),
{
    match content {
        VoxelContent::Leaf(bricks) => {
            assert forall|s: int| 0 <= s < bricks.len() implies brick_flat(
                #[trigger] bricks[s],
                EMPTY_MARKER,
            ) by {
                assert(bricks[s].nothing(colors, data));
                assert(bricks[s].in_palettes(colors.len() as int, data.len() as int));
                lemma_empty_brick_is_flat(bricks[s], colors, data);
            }
        },
        VoxelContent::UniformLeaf(brick) => {
            lemma_empty_brick_is_flat(brick, colors, data);
        },
        _ => {},
    }
}

/// With palettes that hold nothing transparent and nothing empty, a brick that holds
/// nothing to show or to tell holds the empty marker in all its voxels.
pub proof fn lemma_empty_brick_is_flat<V: VoxelData>(
    brick: ChunkData,
    colors: Seq<Albedo>,
    data: Seq<V>,
)
    requires
        strict_palettes(colors, data),
        brick.in_palettes(colors.len() as int, data.len() as int),
        brick.nothing(colors, data),
    ensures
        brick_flat(brick, EMPTY_MARKER),
{
    match brick {
        ChunkData::Solid(voxel) => {
            lemma_strict_empty(voxel, colors, data);
        },
        ChunkData::Parted(values) => {
            assert forall|i: int| 0 <= i < values.len() implies #[trigger] values[i]
                == EMPTY_MARKER by {
                assert(crate::palette::points_to_empty(values[i], colors, data));
                assert(index_in_palettes(values[i], colors.len() as int, data.len() as int));
                lemma_strict_empty(values[i], colors, data);
            }
        },
        _ => {},
    }
}

} // verus!
