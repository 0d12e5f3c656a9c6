//! How changes of the node graph show in the values that the tree holds.
use vstd::prelude::*;
use crate::arena::cube_inside;
use crate::spatial::{
    lemma_child_cube_contains, sectant_coordinate, sectant_x, sectant_y, sectant_z, Cube,
};
use crate::tree::{content_voxel, lemma_node_size, lemma_power_of_two_positive, Contree};
use crate::types::{VoxelData, EMPTY_MARKER};

verus! {

/// On one axis: a point in the quarter of a cube that a sectant coordinate names has that
/// sectant coordinate.
pub proof fn lemma_quarter_coordinate(offset: int, quarter: int, coordinate: int)
    requires
        quarter > 0,
        0 <= coordinate < 4,
        coordinate * quarter <= offset < coordinate * quarter + quarter,
    ensures
        sectant_coordinate(offset, 4 * quarter) == coordinate,
        0 <= offset < 4 * quarter,
{
    let r = offset - coordinate * quarter;
    assert(offset * 4 == coordinate * (4 * quarter) + 4 * r) by (nonlinear_arith)
        requires
            r == offset - coordinate * quarter,
    ;
    vstd::arithmetic::div_mod::lemma_fundamental_div_mod_converse(
        offset * 4,
        4 * quarter,
        coordinate,
        4 * r,
    );
    assert(0 <= coordinate * quarter && coordinate * quarter + quarter <= 4 * quarter)
        by (nonlinear_arith)
        requires
            0 <= coordinate < 4,
            quarter > 0,
    ;
}

/// A point in the cube of a sectant lies in the node, in that sectant.
pub proof fn lemma_sectant_of_child_point(bounds: Cube, sectant: int, x: int, y: int, z: int)
    requires
        bounds.wf(),
        bounds.size % 4 == 0,
        bounds.size >= 4,
        0 <= sectant < 64,
        bounds.child_cube(sectant).contains_point(x, y, z),
    ensures
        bounds.contains_point(x, y, z),
        bounds.sectant_of(x, y, z) == sectant,
{
    let q = bounds.size as int / 4;
    assert(bounds.size == 4 * q);
    let sx = sectant_x(sectant);
    let sy = sectant_y(sectant);
    let sz = sectant_z(sectant);
    assert(0 <= sx * q && sx * q + q <= 4 * q && 0 <= sy * q && sy * q + q <= 4 * q && 0 <= sz
        * q && sz * q + q <= 4 * q) by (nonlinear_arith)
        requires
            0 <= sx < 4,
            0 <= sy < 4,
            0 <= sz < 4,
            q > 0,
    ;
    lemma_quarter_coordinate(x - bounds.min_position.x, q, sx);
    lemma_quarter_coordinate(y - bounds.min_position.y, q, sy);
    lemma_quarter_coordinate(z - bounds.min_position.z, q, sz);
}

/// A cube inside the cube of a sectant lies inside the node, and in no other sectant's cube.
pub proof fn lemma_inside_one_child(bounds: Cube, inner: Cube, first: int, second: int)
    requires
        bounds.wf(),
        bounds.size % 4 == 0,
        bounds.size >= 4,
        0 <= first < 64,
        0 <= second < 64,
        inner.size >= 1,
        cube_inside(inner, bounds.child_cube(first)),
        cube_inside(inner, bounds.child_cube(second)),
    ensures
        first == second,
{
    let x = inner.min_position.x as int;
    let y = inner.min_position.y as int;
    let z = inner.min_position.z as int;
    lemma_sectant_of_child_point(bounds, first, x, y, z);
    lemma_sectant_of_child_point(bounds, second, x, y, z);
}

impl<T: VoxelData> Contree<T> {
    /// The value that a subtree holds at a position is the same in a tree in which all
    /// nodes inside the cube of the subtree are the same.
    pub proof fn lemma_voxel_frame(&self, after: &Self, key: int, bounds: Cube, x: int, y: int,
        z: int)
        requires
            self.wf(),
            after.dim() == self.dim(),
            after.nodes.slots() <= EMPTY_MARKER,
            key == EMPTY_MARKER || (self.nodes.valid(key) && bounds == self.node_bounds@[key]),
            bounds.contains_point(x, y, z),
            forall|other: int|
                self.nodes.valid(other) && cube_inside(self.node_bounds@[other], bounds)
                    ==> #[trigger] self.same_node_in(after, other),
        ensures
            after.voxel_in(key, bounds, x, y, z) == self.voxel_in(key, bounds, x, y, z),
        decreases bounds.size,
    {
        if key == EMPTY_MARKER {
        } else {
            assert(self.same_node_in(after, key));
            assert(self.node_ok(key));
            if self.nodes.item(key) is Internal {
                lemma_power_of_two_positive(self.dim());
                lemma_node_size(bounds.size as int, self.dim());
                let sectant = bounds.sectant_of(x, y, z);
                lemma_child_cube_contains(bounds, x, y, z);
                assert(self.link_ok(key, sectant));
                let child = self.node_children[key].child_key(sectant);
                self.lemma_child_bounds_ok(bounds, sectant);
                let cube = bounds.child_cube(sectant);
                assert forall|other: int|
                    self.nodes.valid(other) && cube_inside(
                        self.node_bounds@[other],
                        cube,
                    ) implies #[trigger] self.same_node_in(after, other) by {
                    assert(cube_inside(self.node_bounds@[other], bounds));
                }
                self.lemma_voxel_frame(after, child, cube, x, y, z);
            }
        }
    }

    /// The value that a node which is not divided holds at a position is the value that
    /// its content shows there.
    pub proof fn lemma_voxel_of_leaf(&self, key: int, bounds: Cube, x: int, y: int, z: int)
        requires
            self.nodes.valid(key),
            !(self.nodes.item(key) is Internal),
        ensures
            self.voxel_in(key, bounds, x, y, z) == content_voxel(
                self.nodes.item(key),
                bounds,
                self.dim(),
                x,
                y,
                z,
            ),
    {
    }

    /// The value that a divided node holds at a position is the value that the child in the
    /// sectant of the position holds there.
    pub proof fn lemma_voxel_of_internal(&self, key: int, bounds: Cube, x: int, y: int, z: int)
        requires
            self.nodes.valid(key),
            self.nodes.item(key) is Internal,
            bounds.size >= 4,
        ensures
            self.voxel_in(key, bounds, x, y, z) == self.voxel_in(
                self.node_children[key].child_key(bounds.sectant_of(x, y, z)),
                bounds.child_cube(bounds.sectant_of(x, y, z)),
                x,
                y,
                z,
            ),
    {
    }
}

} // verus!
