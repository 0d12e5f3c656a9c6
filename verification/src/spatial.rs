//! Integer geometry of the tree: vectors, cubes, sectants and flat matrix indices.
use vstd::prelude::*;

verus! {

/// Edge length of a node measured in children.
pub const BOX_NODE_DIMENSION: usize = 4;

/// Number of children (sectants) of a node.
pub const BOX_NODE_CHILDREN_COUNT: usize = 64;

/// Sectant index reported for positions outside of a node.
pub const OOB_SECTANT: u8 = 64;

/// A vector of three components.
#[derive(Clone, Copy, Debug, PartialEq, Eq)]
pub struct V3c<T> {
    pub x: T,
    pub y: T,
    pub z: T,
}

impl<T: Copy> V3c<T> {
    /// The vector `(x, y, z)`.
    pub fn new(x: T, y: T, z: T) -> (v: Self)
        ensures
            v.x == x,
            v.y == y,
            v.z == z,
    {
        V3c { x, y, z }
    }

    /// The vector with every component set to `scale`.
    pub fn unit(scale: T) -> (v: Self)
        ensures
            v.x == scale,
            v.y == scale,
            v.z == scale,
    {
        V3c { x: scale, y: scale, z: scale }
    }
}

/// The flat index of the cell `(x, y, z)` in a cubic matrix of edge `size`.
pub open spec fn flat_index(x: int, y: int, z: int, size: int) -> int {
    x + y * size + z * size * size
}

/// Two cells of a cubic matrix share a flat index only if they are the same cell, and every
/// flat index is below the number of cells.
pub proof fn lemma_flat_index_injective(
    x1: int,
    y1: int,
    z1: int,
    x2: int,
    y2: int,
    z2: int,
    size: int,
)
    requires
        0 <= x1 < size,
        0 <= y1 < size,
        0 <= z1 < size,
        0 <= x2 < size,
        0 <= y2 < size,
        0 <= z2 < size,
    ensures
        0 <= flat_index(x1, y1, z1, size) < size * size * size,
        flat_index(x1, y1, z1, size) == flat_index(x2, y2, z2, size) ==> x1 == x2 && y1 == y2
            && z1 == z2,
{
    lemma_flat_index_bound(x1, y1, z1, size);
    lemma_flat_index_bound(x2, y2, z2, size);
    if flat_index(x1, y1, z1, size) == flat_index(x2, y2, z2, size) {
        let r1 = x1 + y1 * size;
        let r2 = x2 + y2 * size;
        assert(0 <= r1 < size * size && 0 <= r2 < size * size) by (nonlinear_arith)
            requires
                0 <= x1 < size,
                0 <= y1 < size,
                0 <= x2 < size,
                0 <= y2 < size,
                r1 == x1 + y1 * size,
                r2 == x2 + y2 * size,
        ;
        assert(z1 == z2) by (nonlinear_arith)
            requires
                0 <= r1 < size * size,
                0 <= r2 < size * size,
                r1 + z1 * (size * size) == r2 + z2 * (size * size),
        ;
        assert(y1 == y2) by (nonlinear_arith)
            requires
                0 <= x1 < size,
                0 <= x2 < size,
                x1 + y1 * size == x2 + y2 * size,
        ;
    }
}

/// The flat index of a cell inside the matrix is inside the matrix.
pub proof fn lemma_flat_index_bound(x: int, y: int, z: int, size: int)
    requires
        0 <= x < size,
        0 <= y < size,
        0 <= z < size,
    ensures
        0 <= flat_index(x, y, z, size) < size * size * size,
        0 <= y * size,
        0 <= z * size * size,
        z * size * size == z * (size * size),
{
    assert(0 <= y * size <= (size - 1) * size) by (nonlinear_arith)
        requires
            0 <= y < size,
    ;
    assert(0 <= z * (size * size) <= (size - 1) * (size * size)) by (nonlinear_arith)
        requires
            0 <= z < size,
    ;
    assert(z * size * size == z * (size * size)) by (nonlinear_arith);
    assert((size - 1) * (size * size) + (size - 1) * size + size == size * size * size)
        by (nonlinear_arith);
}

/// Projects a three dimensional matrix index to a flat index.
pub fn flat_projection(x: usize, y: usize, z: usize, size: usize) -> (r: usize)
    requires
        flat_index(x as int, y as int, z as int, size as int) <= usize::MAX,
    ensures
        r == flat_index(x as int, y as int, z as int, size as int),
{
    assert(y * size <= flat_index(x as int, y as int, z as int, size as int))
        by (nonlinear_arith);
    assert(z * size <= z * size * size) by (nonlinear_arith);
    x + (y * size) + (z * size * size)
}

/// The sectant coordinate, on one axis, of a point `offset` away from the lower edge of a
/// node of edge `size`.
pub open spec fn sectant_coordinate(offset: int, size: int) -> int {
    offset * 4 / size
}

/// The sectant of a point given by its offset inside a node of edge `size`.
pub open spec fn sectant_of_offset(x: int, y: int, z: int, size: int) -> int {
    flat_index(
        sectant_coordinate(x, size),
        sectant_coordinate(y, size),
        sectant_coordinate(z, size),
        4,
    )
}

/// A sectant coordinate of an offset inside the node is below four.
pub proof fn lemma_sectant_coordinate_bound(offset: int, size: int)
    requires
        0 <= offset < size,
    ensures
        0 <= sectant_coordinate(offset, size) < 4,
{
    assert(0 <= offset * 4 / size < 4) by (nonlinear_arith)
        requires
            0 <= offset < size,
    ;
}

fn sectant_axis(offset: u32, size: u32) -> (r: usize)
    requires
        offset < size,
    ensures
        r == sectant_coordinate(offset as int, size as int),
        r < 4,
{
    proof {
        lemma_sectant_coordinate_bound(offset as int, size as int);
    }
    let scaled: u64 = (offset as u64) * 4;
    (scaled / (size as u64)) as usize
}

/// Maps an offset inside a node of edge `size` to the index of the sectant holding it.
pub fn offset_sectant(offset: &V3c<u32>, size: u32) -> (r: u8)
    requires
        offset.x < size,
        offset.y < size,
        offset.z < size,
    ensures
        r == sectant_of_offset(offset.x as int, offset.y as int, offset.z as int, size as int),
        r < 64,
{
    let x: usize = sectant_axis(offset.x, size);
    let y: usize = sectant_axis(offset.y, size);
    let z: usize = sectant_axis(offset.z, size);
    flat_projection(x, y, z, BOX_NODE_DIMENSION) as u8
}

/// The `x` coordinate of a sectant inside its node.
pub open spec fn sectant_x(sectant: int) -> int {
    sectant % 4
}

/// The `y` coordinate of a sectant inside its node.
pub open spec fn sectant_y(sectant: int) -> int {
    (sectant / 4) % 4
}

/// The `z` coordinate of a sectant inside its node.
pub open spec fn sectant_z(sectant: int) -> int {
    sectant / 16
}

/// An axis aligned cube of voxels.
#[derive(Clone, Copy, Debug, PartialEq, Eq)]
pub struct Cube {
    pub min_position: V3c<u32>,
    pub size: u32,
}

impl Cube {
    /// The cube reaches no further than the largest coordinate.
    pub open spec fn wf(&self) -> bool {
        &&& self.min_position.x + self.size <= u32::MAX
        &&& self.min_position.y + self.size <= u32::MAX
        &&& self.min_position.z + self.size <= u32::MAX
    }

    /// The point `(x, y, z)` lies inside the cube.
    pub open spec fn contains_point(&self, x: int, y: int, z: int) -> bool {
        &&& self.min_position.x <= x < self.min_position.x + self.size
        &&& self.min_position.y <= y < self.min_position.y + self.size
        &&& self.min_position.z <= z < self.min_position.z + self.size
    }

    /// The cube of the given sectant: a quarter of the edge, moved by the sectant's coordinates.
    pub open spec fn child_cube(&self, sectant: int) -> Cube {
        Cube {
            min_position: V3c {
                x: (self.min_position.x + sectant_x(sectant) * (self.size / 4)) as u32,
                y: (self.min_position.y + sectant_y(sectant) * (self.size / 4)) as u32,
                z: (self.min_position.z + sectant_z(sectant) * (self.size / 4)) as u32,
            },
            size: self.size / 4,
        }
    }

    /// The sectant of this cube in which the point lies.
    pub open spec fn sectant_of(&self, x: int, y: int, z: int) -> int {
        sectant_of_offset(
            x - self.min_position.x,
            y - self.min_position.y,
            z - self.min_position.z,
            self.size as int,
        )
    }

    /// The bounds of a tree of the given edge length.
    pub fn root_bounds(size: u32) -> (c: Cube)
        ensures
            c.min_position.x == 0,
            c.min_position.y == 0,
            c.min_position.z == 0,
            c.size == size,
            c.wf(),
    {
        Cube { min_position: V3c { x: 0, y: 0, z: 0 }, size }
    }

    /// Tells whether the position is inside the cube.
    pub fn contains(&self, position: &V3c<u32>) -> (r: bool)
        ensures
            r == self.contains_point(position.x as int, position.y as int, position.z as int),
    {
        let size: u64 = self.size as u64;
        position.x >= self.min_position.x && (position.x as u64) < self.min_position.x as u64
            + size && position.y >= self.min_position.y && (position.y as u64)
            < self.min_position.y as u64 + size && position.z >= self.min_position.z && (
        position.z as u64) < self.min_position.z as u64 + size
    }

    /// The bounds of the child in the given sectant.
    pub fn child_bounds_for(&self, sectant: u8) -> (c: Cube)
        requires
            self.wf(),
            sectant < 64,
        ensures
            c == self.child_cube(sectant as int),
            c.wf(),
            c.size == self.size / 4,
    {
        let child_size: u32 = self.size / 4;
        let sx: u32 = (sectant % 4) as u32;
        let sy: u32 = ((sectant / 4) % 4) as u32;
        let sz: u32 = (sectant / 16) as u32;
        assert(sx * child_size + child_size <= self.size && sy * child_size + child_size
            <= self.size && sz * child_size + child_size <= self.size) by (nonlinear_arith)
            requires
                sx < 4,
                sy < 4,
                sz < 4,
                child_size == self.size / 4,
        ;
        Cube {
            min_position: V3c {
                x: self.min_position.x + sx * child_size,
                y: self.min_position.y + sy * child_size,
                z: self.min_position.z + sz * child_size,
            },
            size: child_size,
        }
    }
}

/// A point inside a cube whose edge is a multiple of four lies inside the cube of its sectant.
pub proof fn lemma_child_cube_contains(bounds: Cube, x: int, y: int, z: int)
    requires
        bounds.wf(),
        bounds.size % 4 == 0,
        bounds.contains_point(x, y, z),
    ensures
        0 <= bounds.sectant_of(x, y, z) < 64,
        bounds.child_cube(bounds.sectant_of(x, y, z)).contains_point(x, y, z),
        bounds.child_cube(bounds.sectant_of(x, y, z)).wf(),
        sectant_x(bounds.sectant_of(x, y, z)) == sectant_coordinate(
            x - bounds.min_position.x,
            bounds.size as int,
        ),
        sectant_y(bounds.sectant_of(x, y, z)) == sectant_coordinate(
            y - bounds.min_position.y,
            bounds.size as int,
        ),
        sectant_z(bounds.sectant_of(x, y, z)) == sectant_coordinate(
            z - bounds.min_position.z,
            bounds.size as int,
        ),
{
    let size = bounds.size as int;
    let q = size / 4;
    let ox = x - bounds.min_position.x;
    let oy = y - bounds.min_position.y;
    let oz = z - bounds.min_position.z;
    lemma_axis_in_child(ox, size);
    lemma_axis_in_child(oy, size);
    lemma_axis_in_child(oz, size);
    let cx = sectant_coordinate(ox, size);
    let cy = sectant_coordinate(oy, size);
    let cz = sectant_coordinate(oz, size);
    let s = bounds.sectant_of(x, y, z);
    assert(s == cx + cy * 4 + cz * 4 * 4);
    assert(size == 4 * q);
    assert(cx * q + q <= size && cy * q + q <= size && cz * q + q <= size) by (nonlinear_arith)
        requires
            0 <= cx < 4,
            0 <= cy < 4,
            0 <= cz < 4,
            size == 4 * q,
            q >= 0,
    ;
    assert(sectant_x(s) == cx);
    assert(sectant_y(s) == cy);
    assert(sectant_z(s) == cz);
}

/// On one axis: an offset inside a node whose edge is a multiple of four lies inside the
/// quarter that its sectant coordinate names.
pub proof fn lemma_axis_in_child(offset: int, size: int)
    requires
        0 <= offset < size,
        size % 4 == 0,
    ensures
        0 <= sectant_coordinate(offset, size) < 4,
        sectant_coordinate(offset, size) * (size / 4) <= offset < sectant_coordinate(
            offset,
            size,
        ) * (size / 4) + size / 4,
        sectant_coordinate(offset, size) == offset / (size / 4),
{
    let q = size / 4;
    assert(size == 4 * q);
    let c = offset / q;
    assert(c * q <= offset < c * q + q && 0 <= c < 4) by (nonlinear_arith)
        requires
            0 <= offset < 4 * q,
            q > 0,
            c == offset / q,
    ;
    assert(offset * 4 / (4 * q) == c) by (nonlinear_arith)
        requires
            c * q <= offset < c * q + q,
            q > 0,
    ;
}

/// The index, on one axis, of the matrix cell that holds a point `offset` away from the
/// lower edge of a cube of edge `size` represented by `dimension` cells.
pub open spec fn matrix_coordinate(offset: int, dimension: int, size: int) -> int {
    offset * dimension / size
}

/// A matrix coordinate of an offset inside the cube is inside the matrix.
pub proof fn lemma_matrix_coordinate_bound(offset: int, dimension: int, size: int)
    requires
        0 <= offset < size,
        0 < dimension,
    ensures
        0 <= matrix_coordinate(offset, dimension, size) < dimension,
{
    assert(0 <= offset * dimension / size < dimension) by (nonlinear_arith)
        requires
            0 <= offset < size,
            0 < dimension,
    ;
}

fn matrix_axis(offset: u32, dimension: u32, size: u32) -> (r: usize)
    requires
        offset < size,
        0 < dimension,
    ensures
        r == matrix_coordinate(offset as int, dimension as int, size as int),
        r < dimension,
{
    proof {
        lemma_matrix_coordinate_bound(offset as int, dimension as int, size as int);
    }
    assert(offset * dimension <= u64::MAX) by (nonlinear_arith)
        requires
            offset <= u32::MAX,
            dimension <= u32::MAX,
    ;
    let scaled: u64 = (offset as u64) * (dimension as u64);
    (scaled / (size as u64)) as usize
}

/// The index of the matrix cell that holds the position, for a cube represented by a matrix
/// of `matrix_dimension` cells on each edge.
pub fn matrix_index_for(bounds: &Cube, position: &V3c<u32>, matrix_dimension: u32) -> (r: V3c<
    usize,
>)
    requires
        bounds.contains_point(position.x as int, position.y as int, position.z as int),
        0 < matrix_dimension,
    ensures
        r.x == matrix_coordinate(
            position.x - bounds.min_position.x,
            matrix_dimension as int,
            bounds.size as int,
        ),
        r.y == matrix_coordinate(
            position.y - bounds.min_position.y,
            matrix_dimension as int,
            bounds.size as int,
        ),
        r.z == matrix_coordinate(
            position.z - bounds.min_position.z,
            matrix_dimension as int,
            bounds.size as int,
        ),
        r.x < matrix_dimension,
        r.y < matrix_dimension,
        r.z < matrix_dimension,
{
    V3c {
        x: matrix_axis(position.x - bounds.min_position.x, matrix_dimension, bounds.size),
        y: matrix_axis(position.y - bounds.min_position.y, matrix_dimension, bounds.size),
        z: matrix_axis(position.z - bounds.min_position.z, matrix_dimension, bounds.size),
    }
}

/// The sectant of the cube in which the position lies.
pub fn child_sectant_for(bounds: &Cube, position: &V3c<u32>) -> (r: u8)
    requires
        bounds.contains_point(position.x as int, position.y as int, position.z as int),
    ensures
        r == bounds.sectant_of(position.x as int, position.y as int, position.z as int),
        r < 64,
{
    let offset: V3c<u32> = V3c {
        x: position.x - bounds.min_position.x,
        y: position.y - bounds.min_position.y,
        z: position.z - bounds.min_position.z,
    };
    offset_sectant(&offset, bounds.size)
}

/// The smaller of two numbers.
pub open spec fn min_int(a: int, b: int) -> int {
    if a <= b {
        a
    } else {
        b
    }
}

/// The edge of the largest cube that starts at the position, stays inside the bounds and is
/// no larger than requested: the smallest of the request and the room left on each axis.
pub open spec fn clipped_size(bounds: Cube, x: int, y: int, z: int, requested: int) -> int {
    min_int(
        min_int(
            min_int(requested, bounds.min_position.x + bounds.size - x),
            bounds.min_position.y + bounds.size - y,
        ),
        bounds.min_position.z + bounds.size - z,
    )
}

/// Clips the requested update size so that an update starting at the position stays inside
/// the bounds on every axis.
pub fn update_size_within(bounds: &Cube, position: &V3c<u32>, requested_size: u32) -> (r: u32)
    requires
        bounds.contains_point(position.x as int, position.y as int, position.z as int),
    ensures
        r == clipped_size(
            *bounds,
            position.x as int,
            position.y as int,
            position.z as int,
            requested_size as int,
        ),
        r <= requested_size,
        requested_size > 0 ==> r > 0,
{
    let room_x: u32 = bounds.size - (position.x - bounds.min_position.x);
    let room_y: u32 = bounds.size - (position.y - bounds.min_position.y);
    let room_z: u32 = bounds.size - (position.z - bounds.min_position.z);
    let mut r: u32 = requested_size;
    if room_x < r {
        r = room_x;
    }
    if room_y < r {
        r = room_y;
    }
    if room_z < r {
        r = room_z;
    }
    r
}

/// The octant (of a 2x2x2 grid) that covers the given sectant (of a 4x4x4 grid).
pub open spec fn octant_of_sectant(sectant: int) -> int {
    flat_index(sectant_x(sectant) / 2, sectant_y(sectant) / 2, sectant_z(sectant) / 2, 2)
}

/// Maps a sectant to the octant that covers it.
pub fn octant_in_sectants(sectant: usize) -> (r: usize)
    requires
        sectant < 64,
    ensures
        r == octant_of_sectant(sectant as int),
        r < 8,
{
    let x: usize = (sectant % 4) / 2;
    let y: usize = ((sectant / 4) % 4) / 2;
    let z: usize = (sectant / 16) / 2;
    x + y * 2 + z * 4
}

/// The coordinates of a cell can be read off its flat index.
pub proof fn lemma_flat_index_coordinates(x: int, y: int, z: int, size: int)
    requires
        0 <= x < size,
        0 <= y < size,
        0 <= z < size,
    ensures
        flat_index(x, y, z, size) % size == x,
        (flat_index(x, y, z, size) / size) % size == y,
        flat_index(x, y, z, size) / size / size == z,
{
    let i = flat_index(x, y, z, size);
    let row = y + z * size;
    assert(i == row * size + x) by (nonlinear_arith)
        requires
            i == x + y * size + z * size * size,
            row == y + z * size,
    ;
    vstd::arithmetic::div_mod::lemma_fundamental_div_mod_converse(i, size, row, x);
    vstd::arithmetic::div_mod::lemma_fundamental_div_mod_converse(row, size, z, y);
}

/// A flat index below the number of cells is the flat index of the cell whose coordinates
/// can be read off it.
pub proof fn lemma_flat_index_of_coordinates(i: int, size: int)
    requires
        0 <= i < size * size * size,
        0 < size,
    ensures
        0 <= i % size < size,
        0 <= (i / size) % size < size,
        0 <= i / size / size < size,
        flat_index(i % size, (i / size) % size, i / size / size, size) == i,
{
    let row = i / size;
    assert(i == row * size + i % size && 0 <= i % size < size) by (nonlinear_arith)
        requires
            row == i / size,
            0 < size,
    ;
    assert(0 <= row < size * size) by (nonlinear_arith)
        requires
            row == i / size,
            0 <= i < size * size * size,
            0 < size,
    ;
    let z = row / size;
    assert(row == z * size + row % size && 0 <= row % size < size && 0 <= z < size)
        by (nonlinear_arith)
        requires
            z == row / size,
            0 <= row < size * size,
            0 < size,
    ;
    assert(i % size + (row % size) * size + z * size * size == i) by (nonlinear_arith)
        requires
            i == row * size + i % size,
            row == z * size + row % size,
    ;
}

/// The sign of a number: minus one, zero or one.
pub open spec fn signum(value: int) -> int {
    if value < 0 {
        -1
    } else if value > 0 {
        1
    } else {
        0
    }
}

/// The sectant one step away from the given sectant, along each axis in the direction of
/// the sign of the step; sixty-four where the step leaves the node.
pub open spec fn sectant_stepped(sectant: int, step_x: int, step_y: int, step_z: int) -> int {
    let x = sectant_x(sectant) + signum(step_x);
    let y = sectant_y(sectant) + signum(step_y);
    let z = sectant_z(sectant) + signum(step_z);
    if 0 <= x < 4 && 0 <= y < 4 && 0 <= z < 4 {
        flat_index(x, y, z, 4)
    } else {
        64
    }
}

/// The sectant that a step in the given direction leads to from the given sectant, or the
/// out of bounds sectant if the step leaves the node.
pub fn sectant_after_step(step_vector: &V3c<i32>, sectant: usize) -> (r: u8)
    requires
        sectant < 64,
    ensures
        r == sectant_stepped(
            sectant as int,
            step_vector.x as int,
            step_vector.y as int,
            step_vector.z as int,
        ),
        r <= OOB_SECTANT,
{
    let x: i32 = (sectant % 4) as i32 + step_sign(step_vector.x);
    let y: i32 = ((sectant / 4) % 4) as i32 + step_sign(step_vector.y);
    let z: i32 = (sectant / 16) as i32 + step_sign(step_vector.z);
    if x < 0 || x > 3 || y < 0 || y > 3 || z < 0 || z > 3 {
        OOB_SECTANT
    } else {
        (x + y * 4 + z * 16) as u8
    }
}

/// The sign of the number.
pub fn step_sign(value: i32) -> (r: i32)
    ensures
        r == signum(value as int),
{
    if value < 0 {
        -1
    } else if value > 0 {
        1
    } else {
        0
    }
}

impl V3c<i32> {
    /// The cross product of the two vectors.
    pub fn cross(self, other: V3c<i32>) -> (r: V3c<i32>)
        requires
            -0x7FFF <= self.x <= 0x7FFF,
            -0x7FFF <= self.y <= 0x7FFF,
            -0x7FFF <= self.z <= 0x7FFF,
            -0x7FFF <= other.x <= 0x7FFF,
            -0x7FFF <= other.y <= 0x7FFF,
            -0x7FFF <= other.z <= 0x7FFF,
        ensures
            r.x == self.y * other.z - self.z * other.y,
            r.y == self.z * other.x - self.x * other.z,
            r.z == self.x * other.y - self.y * other.x,
    {
        assert(-0x3FFF_0001 <= self.y * other.z <= 0x3FFF_0001 && -0x3FFF_0001 <= self.z * other.y
            <= 0x3FFF_0001 && -0x3FFF_0001 <= self.z * other.x <= 0x3FFF_0001 && -0x3FFF_0001
            <= self.x * other.z <= 0x3FFF_0001 && -0x3FFF_0001 <= self.x * other.y <= 0x3FFF_0001
            && -0x3FFF_0001 <= self.y * other.x <= 0x3FFF_0001) by (nonlinear_arith)
            requires
                -0x7FFF <= self.x <= 0x7FFF,
                -0x7FFF <= self.y <= 0x7FFF,
                -0x7FFF <= self.z <= 0x7FFF,
                -0x7FFF <= other.x <= 0x7FFF,
                -0x7FFF <= other.y <= 0x7FFF,
                -0x7FFF <= other.z <= 0x7FFF,
        ;
        V3c {
            x: self.y * other.z - self.z * other.y,
            y: self.z * other.x - self.x * other.z,
            z: self.x * other.y - self.y * other.x,
        }
    }
}

} // verus!
