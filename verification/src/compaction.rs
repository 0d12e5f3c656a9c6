//! Simplification of the content of leaves: bricks that hold one value become solid, and
//! sixty-four bricks that show one matrix at four times its resolution become that matrix.
use vstd::prelude::*;
use crate::brick_update::{
    dilute_for_sectant, diluted_source, lemma_axis_source, lemma_diluted_source_bound,
};
use crate::leaf::{
    brick_len, lemma_strict_empty, same_voxels, strict_palettes, usable_dimension,
};
use crate::node::brick_volume;
use crate::palette::index_in_palettes;
use crate::spatial::{
    flat_index, lemma_child_cube_contains, lemma_flat_index_bound, lemma_flat_index_coordinates,
    lemma_flat_index_of_coordinates, lemma_matrix_coordinate_bound, matrix_coordinate, sectant_x,
    sectant_y, sectant_z, Cube,
};
use crate::tree::{brick_voxel, content_voxel};
use crate::types::{
    Albedo, ChunkData, PaletteIndexValues, VoxelContent, VoxelData, EMPTY_MARKER,
};

verus! {

/// Every voxel of the brick holds the value.
pub open spec fn brick_flat(brick: ChunkData, value: PaletteIndexValues) -> bool {
    match brick {
        ChunkData::Empty => value == EMPTY_MARKER,
        ChunkData::Solid(voxel) => voxel == value,
        ChunkData::Parted(values) => forall|i: int|
            0 <= i < values.len() ==> #[trigger] values[i] == value,
    }
}

/// Every voxel of the content holds the value. A divided node holds no values itself.
pub open spec fn content_flat_with(content: VoxelContent, value: PaletteIndexValues) -> bool {
    match content {
        VoxelContent::Nothing => value == EMPTY_MARKER,
        VoxelContent::Internal(_) => false,
        VoxelContent::Leaf(bricks) => forall|s: int|
            0 <= s < bricks.len() ==> brick_flat(#[trigger] bricks[s], value),
        VoxelContent::UniformLeaf(brick) => brick_flat(brick, value),
    }
}

/// All voxels of the content hold one and the same value.
pub open spec fn content_flat(content: VoxelContent) -> bool {
    exists|value: PaletteIndexValues| content_flat_with(content, value)
}

/// The bricks show the matrix at four times its resolution: each cell of each brick holds
/// the value of the cell of the matrix that it is taken from.
pub open spec fn bricks_show_matrix(
    bricks: Vec<ChunkData>,
    matrix: Vec<PaletteIndexValues>,
    dim: int,
) -> bool {
    forall|sectant: int, x: int, y: int, z: int|
        0 <= sectant < 64 && 0 <= x < dim && 0 <= y < dim && 0 <= z < dim
            ==> bricks[sectant].value_at(
            #[trigger] flat_index(x, y, z, dim),
        ) == matrix[#[trigger] diluted_source(sectant, x, y, z, dim)]
}

/// A brick holds one value at most at every voxel.
pub proof fn lemma_brick_flat_unique(
    brick: ChunkData,
    first: PaletteIndexValues,
    second: PaletteIndexValues,
)
    requires
        brick.nonempty(),
        brick_flat(brick, first),
        brick_flat(brick, second),
    ensures
        first == second,
{
    match brick {
        ChunkData::Parted(values) => {
            assert(values[0] == first);
            assert(values[0] == second);
        },
        _ => {},
    }
}

/// The value that every voxel of the brick holds, if all of them hold one value.
pub fn brick_value(brick: &ChunkData) -> (r: Option<PaletteIndexValues>)
    requires
        brick.nonempty(),
    ensures
        match r {
            Some(value) => brick_flat(*brick, value),
            None => forall|value: PaletteIndexValues| !brick_flat(*brick, value),
        },
{
    match brick {
        ChunkData::Empty => Some(EMPTY_MARKER),
        ChunkData::Solid(voxel) => Some(*voxel),
        ChunkData::Parted(values) => {
            let found: Option<PaletteIndexValues> = brick.get_homogeneous_data();
            proof {
                if found is None {
                    assert forall|value: PaletteIndexValues| !brick_flat(*brick, value) by {
                        if brick_flat(*brick, value) {
                            assert(values[0] == value);
                            assert forall|i: int| 0 <= i < values.len() implies #[trigger] values[i]
                                == values[0] by {}
                        }
                    }
                }
            }
            found
        },
    }
}

/// The bricks all hold the value at every voxel.
pub open spec fn bricks_flat(bricks: Vec<ChunkData>, value: PaletteIndexValues) -> bool {
    forall|s: int| 0 <= s < bricks.len() ==> brick_flat(#[trigger] bricks[s], value)
}

/// The value that every voxel of every brick holds, if all of them hold one value.
pub fn bricks_value(bricks: &Vec<ChunkData>) -> (r: Option<PaletteIndexValues>)
    requires
        forall|s: int| 0 <= s < bricks.len() ==> (#[trigger] bricks[s]).nonempty(),
    ensures
        match r {
            Some(value) => bricks_flat(*bricks, value),
            None => forall|value: PaletteIndexValues| !bricks_flat(*bricks, value),
        },
{
    if bricks.len() == 0 {
        return Some(EMPTY_MARKER);
    }
    assert(bricks[0].nonempty());
    let first: PaletteIndexValues = match brick_value(&bricks[0]) {
        Some(value) => value,
        None => {
            assert forall|value: PaletteIndexValues| !bricks_flat(*bricks, value) by {
                assert(!brick_flat(bricks[0], value));
            }
            return None;
        },
    };
    let mut s: usize = 1;
    while s < bricks.len()
        invariant
            1 <= s <= bricks.len(),
            forall|j: int| 0 <= j < bricks.len() ==> (#[trigger] bricks[j]).nonempty(),
            forall|j: int| 0 <= j < s ==> brick_flat(#[trigger] bricks[j], first),
        decreases bricks.len() - s,
    {
        assert(bricks[s as int].nonempty());
        let found: Option<PaletteIndexValues> = brick_value(&bricks[s]);
        let same: bool = match found {
            Some(value) => value == first,
            None => false,
        };
        if !same {
            assert forall|value: PaletteIndexValues| !bricks_flat(*bricks, value) by {
                if bricks_flat(*bricks, value) {
                    assert(brick_flat(bricks[0], value));
                    assert(brick_flat(bricks[s as int], value));
                    assert(bricks[0].nonempty());
                    lemma_brick_flat_unique(bricks[0], first, value);
                    if found is Some {
                        lemma_brick_flat_unique(bricks[s as int], found.unwrap(), value);
                    }
                }
            }
            return None;
        }
        s += 1;
    }
    Some(first)
}

/// The value that every voxel of the content holds, if all of them hold one value. A
/// divided node holds no values itself.
pub fn content_value(content: &VoxelContent) -> (r: Option<PaletteIndexValues>)
    requires
        content.nonempty(),
    ensures
        match r {
            Some(value) => content_flat_with(*content, value),
            None => !content_flat(*content),
        },
{
    match content {
        VoxelContent::Nothing => Some(EMPTY_MARKER),
        VoxelContent::Internal(_) => None,
        VoxelContent::UniformLeaf(brick) => brick_value(brick),
        VoxelContent::Leaf(bricks) => {
            let found: Option<PaletteIndexValues> = bricks_value(bricks);
            proof {
                if found is None {
                    assert forall|value: PaletteIndexValues| !content_flat_with(
                        *content,
                        value,
                    ) by {
                        assert(!bricks_flat(*bricks, value));
                    }
                }
            }
            found
        },
    }
}

/// A content whose voxels all hold one value shows that value at every position.
pub proof fn lemma_flat_voxels(
    content: VoxelContent,
    value: PaletteIndexValues,
    bounds: Cube,
    dim: int,
    x: int,
    y: int,
    z: int,
)
    requires
        0 < dim,
        content.wf(dim),
        content_flat_with(content, value),
        bounds.wf(),
        bounds.size % 4 == 0,
        bounds.contains_point(x, y, z),
    ensures
        content_voxel(content, bounds, dim, x, y, z) == value,
{
    match content {
        VoxelContent::Leaf(bricks) => {
            lemma_child_cube_contains(bounds, x, y, z);
            let s = bounds.sectant_of(x, y, z);
            assert(brick_flat(bricks[s], value));
            assert(bricks[s].wf(dim));
            lemma_flat_brick_voxel(bricks[s], value, bounds.child_cube(s), dim, x, y, z);
        },
        VoxelContent::UniformLeaf(brick) => {
            lemma_flat_brick_voxel(brick, value, bounds, dim, x, y, z);
        },
        _ => {},
    }
}

/// A brick whose voxels all hold one value shows that value at every position.
pub proof fn lemma_flat_brick_voxel(
    brick: ChunkData,
    value: PaletteIndexValues,
    bounds: Cube,
    dim: int,
    x: int,
    y: int,
    z: int,
)
    requires
        0 < dim,
        brick.wf(dim),
        brick_flat(brick, value),
        bounds.contains_point(x, y, z),
    ensures
        brick_voxel(brick, bounds, dim, x, y, z) == value,
{
    let mx = matrix_coordinate(x - bounds.min_position.x, dim, bounds.size as int);
    let my = matrix_coordinate(y - bounds.min_position.y, dim, bounds.size as int);
    let mz = matrix_coordinate(z - bounds.min_position.z, dim, bounds.size as int);
    lemma_matrix_coordinate_bound(x - bounds.min_position.x, dim, bounds.size as int);
    lemma_matrix_coordinate_bound(y - bounds.min_position.y, dim, bounds.size as int);
    lemma_matrix_coordinate_bound(z - bounds.min_position.z, dim, bounds.size as int);
    lemma_flat_index_bound(mx, my, mz, dim);
    match brick {
        ChunkData::Parted(values) => {
            assert(values[flat_index(mx, my, mz, dim)] == value);
        },
        _ => {},
    }
}

/// Bricks of the same kind and values show the same value at every position.
pub proof fn lemma_same_brick_voxel(
    first: ChunkData,
    second: ChunkData,
    bounds: Cube,
    dim: int,
    x: int,
    y: int,
    z: int,
)
    requires
        first.same_as(&second),
    ensures
        brick_voxel(first, bounds, dim, x, y, z) == brick_voxel(second, bounds, dim, x, y, z),
{
}

/// Contents of the same kind and bricks show the same value at every position, and hold
/// one value only together.
pub proof fn lemma_same_content_voxel(
    first: VoxelContent,
    second: VoxelContent,
    bounds: Cube,
    dim: int,
    x: int,
    y: int,
    z: int,
)
    requires
        first.same_as(&second),
        first.wf(dim),
        bounds.wf(),
        bounds.size % 4 == 0,
        bounds.contains_point(x, y, z),
    ensures
        content_voxel(first, bounds, dim, x, y, z) == content_voxel(second, bounds, dim, x, y, z),
{
    match (first, second) {
        (VoxelContent::Leaf(a), VoxelContent::Leaf(b)) => {
            lemma_child_cube_contains(bounds, x, y, z);
            let s = bounds.sectant_of(x, y, z);
            assert(a[s].same_as(&b[s]));
            lemma_same_brick_voxel(a[s], b[s], bounds.child_cube(s), dim, x, y, z);
        },
        (VoxelContent::UniformLeaf(a), VoxelContent::UniformLeaf(b)) => {
            lemma_same_brick_voxel(a, b, bounds, dim, x, y, z);
        },
        _ => {},
    }
}

/// Contents of the same kind and bricks hold one value only together.
pub proof fn lemma_same_content_flat(
    first: VoxelContent,
    second: VoxelContent,
    value: PaletteIndexValues,
)
    requires
        first.same_as(&second),
        content_flat_with(first, value),
    ensures
        content_flat_with(second, value),
{
    match (first, second) {
        (VoxelContent::Leaf(a), VoxelContent::Leaf(b)) => {
            assert forall|s: int| 0 <= s < b.len() implies brick_flat(#[trigger] b[s], value) by {
                assert(a[s].same_as(&b[s]));
                assert(brick_flat(a[s], value));
                lemma_same_brick_flat(a[s], b[s], value);
            }
        },
        (VoxelContent::UniformLeaf(a), VoxelContent::UniformLeaf(b)) => {
            lemma_same_brick_flat(a, b, value);
        },
        _ => {},
    }
}

/// Bricks of the same kind and values hold one value only together.
pub proof fn lemma_same_brick_flat(first: ChunkData, second: ChunkData, value: PaletteIndexValues)
    requires
        first.same_as(&second),
        brick_flat(first, value),
    ensures
        brick_flat(second, value),
{
    match (first, second) {
        (ChunkData::Parted(a), ChunkData::Parted(b)) => {
            assert forall|i: int| 0 <= i < b.len() implies #[trigger] b[i] == value by {
                assert(a[i] == value);
                assert(a@[i] == b@[i]);
            }
        },
        _ => {},
    }
}

/// A leaf whose bricks show a matrix at four times its resolution shows what a uniform leaf
/// with that matrix shows.
pub proof fn lemma_unified_same_voxels(
    bricks: Vec<ChunkData>,
    matrix: Vec<PaletteIndexValues>,
    bounds: Cube,
    dim: int,
)
    requires
        usable_dimension(dim),
        bounds.wf(),
        bounds.size % 4 == 0,
        bricks.len() == 64,
        bricks_show_matrix(bricks, matrix, dim),
    ensures
        same_voxels(
            VoxelContent::UniformLeaf(ChunkData::Parted(matrix)),
            VoxelContent::Leaf(bricks),
            bounds,
            dim,
        ),
{
    assert forall|x: int, y: int, z: int| bounds.contains_point(x, y,
        z) implies #[trigger] content_voxel(
        VoxelContent::UniformLeaf(ChunkData::Parted(matrix)),
        bounds,
        dim,
        x,
        y,
        z,
    ) == content_voxel(VoxelContent::Leaf(bricks), bounds, dim, x, y, z) by {
        let size = bounds.size as int;
        let q = size / 4;
        let s = bounds.sectant_of(x, y, z);
        let child = bounds.child_cube(s);
        lemma_child_cube_contains(bounds, x, y, z);
        let sx = sectant_x(s);
        let sy = sectant_y(s);
        let sz = sectant_z(s);
        lemma_axis_source(bounds.min_position.x as int, size, dim, x, sx);
        lemma_axis_source(bounds.min_position.y as int, size, dim, y, sy);
        lemma_axis_source(bounds.min_position.z as int, size, dim, z, sz);
        assert(child.min_position.x == bounds.min_position.x + sx * q);
        assert(child.min_position.y == bounds.min_position.y + sy * q);
        assert(child.min_position.z == bounds.min_position.z + sz * q);
        assert(child.size == q);
        let cx = matrix_coordinate(x - (bounds.min_position.x + sx * q), dim, q);
        let cy = matrix_coordinate(y - (bounds.min_position.y + sy * q), dim, q);
        let cz = matrix_coordinate(z - (bounds.min_position.z + sz * q), dim, q);
        assert(bricks[s].value_at(flat_index(cx, cy, cz, dim)) == matrix[diluted_source(
            s,
            cx,
            cy,
            cz,
            dim,
        )]);
    }
}

/// Tells whether the brick holds, cell by cell, the values of the given matrix.
pub fn brick_holds(brick: &ChunkData, values: &Vec<PaletteIndexValues>) -> (r: bool)
    requires
        brick matches ChunkData::Parted(own) ==> own.len() == values.len(),
    ensures
        r == (forall|i: int| 0 <= i < values.len() ==> brick.value_at(i) == #[trigger] values[i]),
{
    let mut i: usize = 0;
    while i < values.len()
        invariant
            i <= values.len(),
            brick matches ChunkData::Parted(own) ==> own.len() == values.len(),
            forall|j: int| 0 <= j < i ==> brick.value_at(j) == #[trigger] values[j],
        decreases values.len() - i,
    {
        let held: PaletteIndexValues = match brick {
            ChunkData::Empty => EMPTY_MARKER,
            ChunkData::Solid(voxel) => *voxel,
            ChunkData::Parted(own) => own[i],
        };
        if held != values[i] {
            assert(brick.value_at(i as int) != values[i as int]);
            return false;
        }
        i += 1;
    }
    true
}

/// The cell of the sixty-four bricks of a leaf that stands first for a cell of the matrix
/// which the bricks may show at four times its resolution.
pub open spec fn first_of_block(x: int, dim: int) -> (int, int) {
    (4 * x / dim, (4 * x) % dim)
}

/// The value of the first of the voxels that stand for the cell `j` of the matrix which the
/// bricks may show at four times its resolution.
pub open spec fn first_value(bricks: Vec<ChunkData>, j: int, d: int) -> PaletteIndexValues {
    bricks[flat_index(
        first_of_block(j % d, d).0,
        first_of_block((j / d) % d, d).0,
        first_of_block(j / d / d, d).0,
        4,
    )].value_at(
        flat_index(
            first_of_block(j % d, d).1,
            first_of_block((j / d) % d, d).1,
            first_of_block(j / d / d, d).1,
            d,
        ),
    )
}

/// The first of the voxels that stand for a cell of the matrix is taken from that cell.
pub proof fn lemma_first_block_source(x: int, y: int, z: int, d: int)
    requires
        usable_dimension(d),
        d > 1,
        0 <= x < d,
        0 <= y < d,
        0 <= z < d,
    ensures
        0 <= first_sectant(x, y, z, d) < 64,
        0 <= first_of_block(x, d).1 < d,
        0 <= first_of_block(y, d).1 < d,
        0 <= first_of_block(z, d).1 < d,
        diluted_source(
            first_sectant(x, y, z, d),
            first_of_block(x, d).1,
            first_of_block(y, d).1,
            first_of_block(z, d).1,
            d,
        ) == flat_index(x, y, z, d),
{
    lemma_first_of_block(x, d);
    lemma_first_of_block(y, d);
    lemma_first_of_block(z, d);
    let sx = first_of_block(x, d).0;
    let sy = first_of_block(y, d).0;
    let sz = first_of_block(z, d).0;
    let s = sx + sy * 4 + sz * 16;
    assert(first_sectant(x, y, z, d) == s);
    assert(sectant_x(s) == sx && sectant_y(s) == sy && sectant_z(s) == sz);
}

/// The sectant of the first of the voxels that stand for a cell of the matrix.
pub open spec fn first_sectant(x: int, y: int, z: int, d: int) -> int {
    flat_index(first_of_block(x, d).0, first_of_block(y, d).0, first_of_block(z, d).0, 4)
}

/// A matrix that the bricks show at four times its resolution holds in each cell the value
/// of the first of the voxels that stand for the cell.
pub proof fn lemma_shown_matrix_cell(
    bricks: Vec<ChunkData>,
    other: Vec<PaletteIndexValues>,
    j: int,
    d: int,
)
    requires
        usable_dimension(d),
        d > 1,
        bricks.len() == 64,
        0 <= j < brick_volume(d),
        bricks_show_matrix(bricks, other, d),
    ensures
        other[j] == first_value(bricks, j, d),
{
    lemma_flat_index_of_coordinates(j, d);
    let x = j % d;
    let y = (j / d) % d;
    let z = j / d / d;
    lemma_first_block_source(x, y, z, d);
    let s = first_sectant(x, y, z, d);
    let cx = first_of_block(x, d).1;
    let cy = first_of_block(y, d).1;
    let cz = first_of_block(z, d).1;
    assert(bricks[s].value_at(flat_index(cx, cy, cz, d)) == other[diluted_source(
        s,
        cx,
        cy,
        cz,
        d,
    )]);
}

/// On one axis: the first of the cells that stand for a cell of the matrix is taken from
/// that cell.
pub proof fn lemma_first_of_block(x: int, dim: int)
    requires
        0 <= x < dim,
        dim == 2 || dim % 4 == 0,
        dim > 0,
    ensures
        0 <= 4 * x / dim < 4,
        0 <= (4 * x) % dim < dim,
        (4 * x / dim) * dim / 4 + ((4 * x) % dim) / 4 == x,
{
    let s = 4 * x / dim;
    let c = (4 * x) % dim;
    assert(4 * x == s * dim + c && 0 <= c < dim && 0 <= s < 4) by (nonlinear_arith)
        requires
            s == 4 * x / dim,
            c == (4 * x) % dim,
            0 <= x < dim,
            dim > 0,
    ;
    if dim == 2 {
        assert(c == 0) by (nonlinear_arith)
            requires
                4 * x == s * 2 + c,
                0 <= c < 2,
        ;
    } else {
        let e = dim / 4;
        assert(dim == 4 * e);
        assert(s * dim / 4 == s * e) by (nonlinear_arith)
            requires
                dim == 4 * e,
        ;
        assert(c == 4 * (x - s * e)) by (nonlinear_arith)
            requires
                4 * x == s * dim + c,
                dim == 4 * e,
        ;
    }
}

/// Tries to unite the sixty-four bricks of a leaf into one matrix that the bricks show at
/// four times its resolution. Each cell of the matrix takes the value of the first of the
/// 4x4x4 voxels that stand for it; the bricks can be united if all the others hold that
/// value too.
pub fn unify_bricks(bricks: &Vec<ChunkData>, chunk_dim: u32) -> (r: Option<Vec<PaletteIndexValues>>)
    requires
        usable_dimension(chunk_dim as int),
        chunk_dim > 1,
        VoxelContent::Leaf(*bricks).wf(chunk_dim as int),
    ensures
        match r {
            Some(matrix) => matrix.len() == brick_volume(chunk_dim as int) && bricks_show_matrix(
                *bricks,
                matrix,
                chunk_dim as int,
            ),
            None => forall|matrix: Vec<PaletteIndexValues>|
                matrix.len() == brick_volume(chunk_dim as int) ==> !bricks_show_matrix(
                    *bricks,
                    matrix,
                    chunk_dim as int,
                ),
        },
{
    let ghost d = chunk_dim as int;
    let dim: usize = chunk_dim as usize;
    let volume: usize = brick_len(chunk_dim);
    let mut matrix: Vec<PaletteIndexValues> = Vec::new();
    let mut i: usize = 0;
    while i < volume
        invariant
            i <= volume,
            matrix.len() == i,
            volume == brick_volume(d),
            d == chunk_dim,
            dim == chunk_dim,
            usable_dimension(d),
            d > 1,
            VoxelContent::Leaf(*bricks).wf(d),
            forall|j: int|
                0 <= j < i ==> #[trigger] matrix[j] == first_value(*bricks, j, d),
        decreases volume - i,
    {
        proof {
            lemma_flat_index_of_coordinates(i as int, d);
            lemma_first_of_block((i as int) % d, d);
            lemma_first_of_block(((i as int) / d) % d, d);
            lemma_first_of_block((i as int) / d / d, d);
            lemma_flat_index_bound(
                first_of_block((i as int) % d, d).1,
                first_of_block(((i as int) / d) % d, d).1,
                first_of_block((i as int) / d / d, d).1,
                d,
            );
        }
        let x: usize = i % dim;
        let y: usize = (i / dim) % dim;
        let z: usize = i / dim / dim;
        let sectant: usize = (4 * x / dim) + (4 * y / dim) * 4 + (4 * z / dim) * 16;
        let cell: usize = crate::spatial::flat_projection(
            (4 * x) % dim,
            (4 * y) % dim,
            (4 * z) % dim,
            dim,
        );
        assert(bricks[sectant as int].wf(d));
        let value: PaletteIndexValues = match &bricks[sectant] {
            ChunkData::Empty => EMPTY_MARKER,
            ChunkData::Solid(voxel) => *voxel,
            ChunkData::Parted(own) => own[cell],
        };
        matrix.push(value);
        i += 1;
    }
    let mut sectant: usize = 0;
    while sectant < 64
        invariant
            sectant <= 64,
            matrix.len() == brick_volume(d),
            d == chunk_dim,
            usable_dimension(d),
            d > 1,
            VoxelContent::Leaf(*bricks).wf(d),
            forall|j: int|
                0 <= j < matrix.len() ==> #[trigger] matrix[j] == first_value(*bricks, j, d),
            forall|s: int, x: int, y: int, z: int|
                0 <= s < sectant && 0 <= x < d && 0 <= y < d && 0 <= z < d ==> bricks[s].value_at(
                    #[trigger] flat_index(x, y, z, d),
                ) == matrix[#[trigger] diluted_source(s, x, y, z, d)],
        decreases 64 - sectant,
    {
        let shown: Vec<PaletteIndexValues> = dilute_for_sectant(&matrix, chunk_dim, sectant);
        assert(bricks[sectant as int].wf(d));
        if !brick_holds(&bricks[sectant], &shown) {
            proof {
                lemma_not_unifiable(*bricks, matrix, shown, sectant as int, d);
            }
            return None;
        }
        proof {
            assert forall|x: int, y: int, z: int|
                0 <= x < d && 0 <= y < d && 0 <= z < d implies bricks[sectant as int].value_at(
                #[trigger] flat_index(x, y, z, d),
            ) == matrix[diluted_source(sectant as int, x, y, z, d)] by {
                lemma_flat_index_bound(x, y, z, d);
                assert(bricks[sectant as int].value_at(flat_index(x, y, z, d))
                    == shown[flat_index(x, y, z, d)]);
            }
        }
        sectant += 1;
    }
    Some(matrix)
}

/// Where a brick does not hold what the matrix of the first voxels shows in its sectant, no
/// matrix is shown by the bricks.
pub proof fn lemma_not_unifiable(
    bricks: Vec<ChunkData>,
    matrix: Vec<PaletteIndexValues>,
    shown: Vec<PaletteIndexValues>,
    sectant: int,
    d: int,
)
    requires
        usable_dimension(d),
        d > 1,
        0 <= sectant < 64,
        bricks.len() == 64,
        matrix.len() == brick_volume(d),
        shown.len() == brick_volume(d),
        forall|j: int|
            0 <= j < matrix.len() ==> #[trigger] matrix[j] == first_value(bricks, j, d),
        forall|x: int, y: int, z: int|
            0 <= x < d && 0 <= y < d && 0 <= z < d ==> shown[#[trigger] flat_index(x, y, z, d)]
                == matrix[diluted_source(sectant, x, y, z, d)],
        !(forall|i: int| 0 <= i < shown.len()
            ==> bricks[sectant].value_at(i) == #[trigger] shown[i]),
    ensures
        forall|other: Vec<PaletteIndexValues>|
            other.len() == brick_volume(d) ==> !bricks_show_matrix(bricks, other, d),
{
    assert forall|other: Vec<PaletteIndexValues>| other.len()
        == brick_volume(d) implies !bricks_show_matrix(
        bricks,
        other,
        d,
    ) by {
        if bricks_show_matrix(bricks, other, d) {
            // the other matrix holds in each cell the value of the first voxel of the cell
            assert forall|j: int| 0 <= j < matrix.len() implies other[j] == matrix[j] by {
                lemma_shown_matrix_cell(bricks, other, j, d);
            }
            let i = choose|i: int|
                0 <= i < shown.len() && bricks[sectant].value_at(i) != #[trigger] shown[i];
            lemma_flat_index_of_coordinates(i, d);
            let x = i % d;
            let y = (i / d) % d;
            let z = i / d / d;
            lemma_diluted_source_bound(sectant, x, y, z, d);
            assert(shown[flat_index(x, y, z, d)] == matrix[diluted_source(sectant, x, y, z, d)]);
            assert(bricks[sectant].value_at(flat_index(x, y, z, d)) == other[diluted_source(
                sectant,
                x,
                y,
                z,
                d,
            )]);
            assert(false);
        }
    }
}

/// The two bricks hold the same value in every cell of a brick of the given edge length.
pub open spec fn same_cells(first: ChunkData, second: ChunkData, dim: int) -> bool {
    forall|i: int| 0 <= i < brick_volume(dim) ==> #[trigger] first.value_at(i) == second.value_at(i)
}

/// Leaves whose bricks hold the same values cell by cell show the same values.
pub proof fn lemma_same_cells_voxels(
    after: Vec<ChunkData>,
    before: Vec<ChunkData>,
    bounds: Cube,
    dim: int,
)
    requires
        0 < dim,
        bounds.wf(),
        bounds.size % 4 == 0,
        after.len() == 64,
        before.len() == 64,
        forall|s: int| 0 <= s < 64 ==> same_cells(#[trigger] after[s], before[s], dim),
    ensures
        same_voxels(VoxelContent::Leaf(after), VoxelContent::Leaf(before), bounds, dim),
{
    assert forall|x: int, y: int, z: int| bounds.contains_point(x, y,
        z) implies #[trigger] content_voxel(
        VoxelContent::Leaf(after),
        bounds,
        dim,
        x,
        y,
        z,
    ) == content_voxel(VoxelContent::Leaf(before), bounds, dim, x, y, z) by {
        lemma_child_cube_contains(bounds, x, y, z);
        let s = bounds.sectant_of(x, y, z);
        let child = bounds.child_cube(s);
        let mx = matrix_coordinate(x - child.min_position.x, dim, child.size as int);
        let my = matrix_coordinate(y - child.min_position.y, dim, child.size as int);
        let mz = matrix_coordinate(z - child.min_position.z, dim, child.size as int);
        lemma_matrix_coordinate_bound(x - child.min_position.x, dim, child.size as int);
        lemma_matrix_coordinate_bound(y - child.min_position.y, dim, child.size as int);
        lemma_matrix_coordinate_bound(z - child.min_position.z, dim, child.size as int);
        lemma_flat_index_bound(mx, my, mz, dim);
        assert(same_cells(after[s], before[s], dim));
        assert(after[s].value_at(flat_index(mx, my, mz, dim)) == before[s].value_at(
            flat_index(mx, my, mz, dim),
        ));
    }
}

/// Simplifies each brick of a leaf. Returns true if a brick holds one value only.
pub fn simplify_bricks<V: VoxelData>(
    chunks: &mut Vec<ChunkData>,
    chunk_dim: u32,
    color_palette: &Vec<Albedo>,
    data_palette: &Vec<V>,
) -> (simplified: bool)
    requires
        usable_dimension(chunk_dim as int),
        strict_palettes(color_palette@, data_palette@),
        VoxelContent::Leaf(*old(chunks)).wf(chunk_dim as int),
        VoxelContent::Leaf(*old(chunks)).in_palettes(
            color_palette.len() as int,
            data_palette.len() as int,
        ),
    ensures
        VoxelContent::Leaf(*final(chunks)).wf(chunk_dim as int),
        VoxelContent::Leaf(*final(chunks)).in_palettes(
            color_palette.len() as int,
            data_palette.len() as int,
        ),
        forall|s: int|
            0 <= s < 64
                ==> same_cells(#[trigger] final(chunks)[s], old(chunks)[s], chunk_dim as int),
        forall|s: int|
            0 <= s < 64 ==> (#[trigger] final(chunks)[s]) == simplified_brick(old(chunks)[s]),
        simplified == exists|s: int| 0 <= s < 64
            && (#[trigger] old(chunks)[s]).homogeneous() is Some,
{
    let ghost dim = chunk_dim as int;
    let ghost given = *chunks;
    let mut simplified: bool = false;
    let mut s: usize = 0;
    assert(brick_volume(dim) > 0) by (nonlinear_arith)
        requires
            dim > 0,
    ;
    while s < 64
        invariant
            s <= 64,
            chunks.len() == 64,
            given.len() == 64,
            dim == chunk_dim,
            brick_volume(dim) > 0,
            strict_palettes(color_palette@, data_palette@),
            VoxelContent::Leaf(given).wf(dim),
            VoxelContent::Leaf(given).in_palettes(
                color_palette.len() as int,
                data_palette.len() as int,
            ),
            forall|j: int| s <= j < 64 ==> chunks[j] == given[j],
            forall|j: int|
                0 <= j < s ==> (#[trigger] chunks[j]).wf(dim) && chunks[j].in_palettes(
                    color_palette.len() as int,
                    data_palette.len() as int,
                ) && same_cells(chunks[j], given[j], dim)
                    && chunks[j] == simplified_brick(given[j]),
            simplified == exists|j: int| 0 <= j < s && (#[trigger] given[j]).homogeneous() is Some,
        decreases 64 - s,
    {
        assert(given[s as int].wf(dim));
        assert(given[s as int].in_palettes(color_palette.len() as int, data_palette.len() as int));
        let ghost before = *chunks;
        let one_value: bool = chunks[s].simplify(color_palette, data_palette);
        proof {
            match given[s as int].homogeneous() {
                Some(value) => {
                    lemma_homogeneous_in_palettes(
                        given[s as int],
                        color_palette.len() as int,
                        data_palette.len() as int,
                    );
                    lemma_strict_empty(value, color_palette@, data_palette@);
                    assert forall|i: int| 0 <= i < brick_volume(dim) implies #[trigger] chunks[s as int].value_at(
                        i,
                    ) == given[s as int].value_at(i) by {
                        match given[s as int] {
                            ChunkData::Parted(values) => {
                                assert(values[i] == values[0]);
                            },
                            _ => {},
                        }
                    }
                },
                None => {},
            }
            assert forall|j: int| 0 <= j < s implies (#[trigger] chunks[j]).wf(dim)
                && chunks[j].in_palettes(color_palette.len() as int, data_palette.len() as int)
                && same_cells(chunks[j], given[j], dim) && chunks[j] == simplified_brick(
                given[j],
            ) by {
                assert(chunks[j] == before[j]);
            }
            if simplified || one_value {
                if one_value {
                    assert(given[s as int].homogeneous() is Some);
                } else {
                    let j = choose|j: int| 0 <= j < s
                        && (#[trigger] given[j]).homogeneous() is Some;
                    assert(given[j].homogeneous() is Some);
                }
            }
        }
        simplified = simplified || one_value;
        s += 1;
    }
    simplified
}

/// The brick after its simplification: a brick that holds one value only is solid, or empty
/// where that value is the empty marker; any other brick is as it was.
pub open spec fn simplified_brick(brick: ChunkData) -> ChunkData {
    match brick.homogeneous() {
        Some(value) => if value == EMPTY_MARKER {
            ChunkData::Empty
        } else {
            ChunkData::Solid(value)
        },
        None => brick,
    }
}

/// The one value of a brick that refers to palette entries refers to palette entries.
pub proof fn lemma_homogeneous_in_palettes(brick: ChunkData, colors: int, more: int)
    requires
        brick.homogeneous() is Some,
        brick.nonempty(),
        brick.in_palettes(colors, more),
    ensures
        index_in_palettes(brick.homogeneous().unwrap(), colors, more),
{
    match brick {
        ChunkData::Parted(values) => {
            assert(index_in_palettes(values[0], colors, more));
        },
        _ => {},
    }
}

/// All bricks of the leaf are solid with the given value.
pub open spec fn all_solid(bricks: Vec<ChunkData>, value: PaletteIndexValues) -> bool {
    forall|s: int| 0 <= s < 64 ==> #[trigger] bricks[s] == ChunkData::Solid(value)
}

/// All bricks of the leaf are solid with the given value once they are simplified.
pub open spec fn all_simplify_to(bricks: Vec<ChunkData>, value: PaletteIndexValues) -> bool {
    forall|s: int| 0 <= s < 64 ==> simplified_brick(#[trigger] bricks[s]) == ChunkData::Solid(value)
}

/// The value that all bricks of a leaf hold, if all are solid and hold the same value.
pub fn uniform_solid_value(chunks: &Vec<ChunkData>) -> (r: Option<PaletteIndexValues>)
    requires
        chunks.len() == 64,
    ensures
        match r {
            Some(value) => all_solid(*chunks, value),
            None => forall|value: PaletteIndexValues| !#[trigger] all_solid(*chunks, value),
        },
{
    let first: PaletteIndexValues = match &chunks[0] {
        ChunkData::Solid(voxel) => *voxel,
        _ => {
            assert forall|value: PaletteIndexValues| !#[trigger] all_solid(*chunks, value) by {
                assert(chunks[0] != ChunkData::Solid(value));
            }
            return None;
        },
    };
    let mut s: usize = 1;
    while s < 64
        invariant
            1 <= s <= 64,
            chunks.len() == 64,
            forall|j: int| 0 <= j < s ==> #[trigger] chunks[j] == ChunkData::Solid(first),
        decreases 64 - s,
    {
        let same: bool = match &chunks[s] {
            ChunkData::Solid(voxel) => *voxel == first,
            _ => false,
        };
        if !same {
            assert forall|value: PaletteIndexValues| !#[trigger] all_solid(*chunks, value) by {
                if all_solid(*chunks, value) {
                    assert(chunks[0] == ChunkData::Solid(value));
                    assert(chunks[s as int] == ChunkData::Solid(value));
                }
            }
            return None;
        }
        s += 1;
    }
    Some(first)
}

/// The matrix has the cells of a brick, and the bricks show it at four times its resolution.
pub open spec fn united_in(
    bricks: Vec<ChunkData>,
    matrix: Vec<PaletteIndexValues>,
    dim: int,
) -> bool {
    matrix.len() == brick_volume(dim) && bricks_show_matrix(bricks, matrix, dim)
}

/// The content is a leaf whose bricks are the given bricks, each of them simplified.
pub open spec fn leaf_of_simplified(content: VoxelContent, bricks: Vec<ChunkData>) -> bool {
    match content {
        VoxelContent::Leaf(after) => after.len() == 64 && forall|s: int|
            0 <= s < 64 ==> #[trigger] after[s] == simplified_brick(bricks[s]),
        _ => false,
    }
}

/// The simplest form of the content of a node, and whether the content counts as simplified:
/// - a node that holds nothing stays as it is, and counts as simplified;
/// - a uniform leaf whose brick holds the empty marker only becomes a node that holds
///   nothing; any other brick that holds one value only becomes solid; the leaf counts as
///   simplified if its brick was empty or was a matrix that held one value only;
/// - a leaf whose bricks, each simplified, are all solid with one value becomes a uniform
///   leaf with that value;
/// - any other leaf of bricks larger than one voxel whose bricks show one matrix at four
///   times its resolution becomes a uniform leaf with that matrix;
/// - any other leaf keeps its bricks, each simplified, and counts as simplified if one of
///   its bricks held one value only and the bricks are larger than one voxel.
pub open spec fn simplified_as(
    content: VoxelContent,
    dim: int,
    result: VoxelContent,
    simplified: bool,
) -> bool {
    match content {
        VoxelContent::Nothing => result is Nothing && simplified,
        VoxelContent::Internal(_) => result == content && !simplified,
        VoxelContent::UniformLeaf(brick) => {
            &&& simplified == (brick is Empty || brick.homogeneous() == Some(EMPTY_MARKER) || (
            brick is Parted && brick.homogeneous() is Some))
            &&& result == (if brick.homogeneous() == Some(EMPTY_MARKER) {
                VoxelContent::Nothing
            } else {
                VoxelContent::UniformLeaf(simplified_brick(brick))
            })
        },
        VoxelContent::Leaf(bricks) => match uniform_solid(bricks) {
            Some(value) => simplified && result == VoxelContent::UniformLeaf(
                ChunkData::Solid(value),
            ),
            None => if dim == 1 {
                !simplified && leaf_of_simplified(result, bricks)
            } else if exists|matrix: Vec<PaletteIndexValues>| #[trigger]
                united_in(bricks, matrix, dim) {
                match result {
                    VoxelContent::UniformLeaf(ChunkData::Parted(matrix)) => simplified
                        && united_in(bricks, matrix, dim),
                    _ => false,
                }
            } else {
                leaf_of_simplified(result, bricks) && simplified == (exists|s: int|
                    0 <= s < 64 && (#[trigger] bricks[s]).homogeneous() is Some)
            },
        },
    }
}

/// Bricks that hold the same values cell by cell show the same matrices.
pub proof fn lemma_same_cells_show(
    after: Vec<ChunkData>,
    before: Vec<ChunkData>,
    matrix: Vec<PaletteIndexValues>,
    dim: int,
)
    requires
        0 < dim,
        after.len() == 64,
        before.len() == 64,
        forall|s: int| 0 <= s < 64 ==> same_cells(#[trigger] after[s], before[s], dim),
    ensures
        bricks_show_matrix(after, matrix, dim) == bricks_show_matrix(before, matrix, dim),
{
    if bricks_show_matrix(after, matrix, dim) {
        assert forall|sectant: int, x: int, y: int, z: int|
            0 <= sectant < 64 && 0 <= x < dim && 0 <= y < dim
                && 0 <= z < dim implies before[sectant].value_at(
            #[trigger] flat_index(x, y, z, dim),
        ) == matrix[#[trigger] diluted_source(sectant, x, y, z, dim)] by {
            lemma_flat_index_bound(x, y, z, dim);
            assert(same_cells(after[sectant], before[sectant], dim));
        }
    }
    if bricks_show_matrix(before, matrix, dim) {
        assert forall|sectant: int, x: int, y: int, z: int|
            0 <= sectant < 64 && 0 <= x < dim && 0 <= y < dim
                && 0 <= z < dim implies after[sectant].value_at(
            #[trigger] flat_index(x, y, z, dim),
        ) == matrix[#[trigger] diluted_source(sectant, x, y, z, dim)] by {
            lemma_flat_index_bound(x, y, z, dim);
            assert(same_cells(after[sectant], before[sectant], dim));
        }
    }
}

/// Simplifies the content of a node that is not divided:
/// a uniform leaf whose brick holds one value only becomes solid, or nothing where that value
/// is the empty marker; the bricks of a leaf are simplified one by one; a leaf whose bricks
/// are solid with one value becomes a uniform leaf with that value; and a leaf whose bricks
/// show one matrix at four times its resolution becomes a uniform leaf with that matrix.
/// The content shows the same values afterwards.
/// Returns the new content, and whether it was simplified.
pub fn simplify_content<V: VoxelData>(
    content: VoxelContent,
    chunk_dim: u32,
    color_palette: &Vec<Albedo>,
    data_palette: &Vec<V>,
    bounds: Ghost<Cube>,
) -> (r: (VoxelContent, bool))
    requires
        !(content is Internal),
        usable_dimension(chunk_dim as int),
        strict_palettes(color_palette@, data_palette@),
        content.wf(chunk_dim as int),
        content.in_palettes(color_palette.len() as int, data_palette.len() as int),
        bounds@.wf(),
        bounds@.size % 4 == 0,
    ensures
        !(r.0 is Internal),
        r.0.wf(chunk_dim as int),
        r.0.in_palettes(color_palette.len() as int, data_palette.len() as int),
        same_voxels(r.0, content, bounds@, chunk_dim as int),
        simplified_as(content, chunk_dim as int, r.0, r.1),
{
    let ghost dim = chunk_dim as int;
    assert(brick_volume(dim) > 0) by (nonlinear_arith)
        requires
            dim > 0,
    ;
    match content {
        VoxelContent::Nothing => (VoxelContent::Nothing, true),
        VoxelContent::Internal(bits) => (VoxelContent::Internal(bits), false),
        VoxelContent::UniformLeaf(chunk) => {
            let mut brick: ChunkData = chunk;
            let ghost given = brick;
            proof {
                if given.homogeneous() is Some {
                    lemma_homogeneous_in_palettes(
                        given,
                        color_palette.len() as int,
                        data_palette.len() as int,
                    );
                    lemma_strict_empty(
                        given.homogeneous().unwrap(),
                        color_palette@,
                        data_palette@,
                    );
                }
            }
            let was_parted: bool = match &brick {
                ChunkData::Parted(_) => true,
                _ => false,
            };
            let one_value: bool = brick.simplify(color_palette, data_palette);
            let ghost simplified = brick;
            proof {
                assert forall|x: int, y: int, z: int|
                    bounds@.contains_point(x, y, z) implies #[trigger] brick_voxel(
                    simplified,
                    bounds@,
                    dim,
                    x,
                    y,
                    z,
                ) == brick_voxel(given, bounds@, dim, x, y, z) by {
                    let mx = matrix_coordinate(
                        x - bounds@.min_position.x,
                        dim,
                        bounds@.size as int,
                    );
                    let my = matrix_coordinate(
                        y - bounds@.min_position.y,
                        dim,
                        bounds@.size as int,
                    );
                    let mz = matrix_coordinate(
                        z - bounds@.min_position.z,
                        dim,
                        bounds@.size as int,
                    );
                    lemma_matrix_coordinate_bound(
                        x - bounds@.min_position.x,
                        dim,
                        bounds@.size as int,
                    );
                    lemma_matrix_coordinate_bound(
                        y - bounds@.min_position.y,
                        dim,
                        bounds@.size as int,
                    );
                    lemma_matrix_coordinate_bound(
                        z - bounds@.min_position.z,
                        dim,
                        bounds@.size as int,
                    );
                    lemma_flat_index_bound(mx, my, mz, dim);
                    match given {
                        ChunkData::Parted(values) => {
                            if given.homogeneous() is Some {
                                assert(values[flat_index(mx, my, mz, dim)] == values[0]);
                            }
                        },
                        _ => {},
                    }
                }
            }
            proof {
                assert forall|x: int, y: int, z: int|
                    bounds@.contains_point(x, y, z) implies brick_voxel(given, bounds@, dim, x, y,
                        z)
                    == #[trigger] content_voxel(content, bounds@, dim, x, y, z) && brick_voxel(
                    given,
                    bounds@,
                    dim,
                    x,
                    y,
                    z,
                ) == brick_voxel(simplified, bounds@, dim, x, y, z) by {}
            }
            match brick {
                ChunkData::Empty => {
                    if was_parted || one_value {
                        // an empty brick is no content
                        assert(given.homogeneous() == Some(EMPTY_MARKER));
                        (VoxelContent::Nothing, true)
                    } else {
                        (VoxelContent::UniformLeaf(ChunkData::Empty), true)
                    }
                },
                other => {
                    let simplified_now: bool = was_parted && one_value;
                    (VoxelContent::UniformLeaf(other), simplified_now)
                },
            }
        },
        VoxelContent::Leaf(chunks) => {
            let mut chunks: Vec<ChunkData> = chunks;
            let ghost given = chunks;
            let simplified: bool = simplify_bricks(
                &mut chunks,
                chunk_dim,
                color_palette,
                data_palette,
            );
            proof {
                lemma_same_cells_voxels(chunks, given, bounds@, dim);
            }
            match uniform_solid_value(&chunks) {
                Some(value) => {
                    proof {
                        assert(index_in_palettes(
                            value,
                            color_palette.len() as int,
                            data_palette.len() as int,
                        )) by {
                            assert(chunks[0].in_palettes(
                                color_palette.len() as int,
                                data_palette.len() as int,
                            ));
                        }
                        assert forall|x: int, y: int, z: int|
                            bounds@.contains_point(x, y, z) implies #[trigger] content_voxel(
                            VoxelContent::UniformLeaf(ChunkData::Solid(value)),
                            bounds@,
                            dim,
                            x,
                            y,
                            z,
                        ) == content_voxel(content, bounds@, dim, x, y, z) by {
                            lemma_child_cube_contains(bounds@, x, y, z);
                            assert(chunks[bounds@.sectant_of(x, y, z)] == ChunkData::Solid(value));
                            assert(content_voxel(VoxelContent::Leaf(chunks), bounds@, dim, x, y, z)
                                == content_voxel(content, bounds@, dim, x, y, z));
                        }
                        lemma_uniform_solid(given, chunks, value);
                    }
                    (VoxelContent::UniformLeaf(ChunkData::Solid(value)), true)
                },
                None => {
                    proof {
                        lemma_not_uniform_solid(given, chunks);
                    }
                    if chunk_dim == 1 {
                        return (VoxelContent::Leaf(chunks), false);
                    }
                    proof {
                        assert forall|matrix: Vec<PaletteIndexValues>|
                            bricks_show_matrix(chunks, matrix, dim)
                                == #[trigger] bricks_show_matrix(
                                given,
                                matrix,
                                dim,
                            ) by {
                            lemma_same_cells_show(chunks, given, matrix, dim);
                        }
                    }
                    match unify_bricks(&chunks, chunk_dim) {
                        Some(matrix) => {
                            proof {
                                assert(united_in(given, matrix, dim));
                                lemma_unified_same_voxels(chunks, matrix, bounds@, dim);
                                assert forall|x: int, y: int, z: int|
                                    bounds@.contains_point(
                                        x,
                                        y,
                                        z,
                                    ) implies #[trigger] content_voxel(
                                    VoxelContent::UniformLeaf(ChunkData::Parted(matrix)),
                                    bounds@,
                                    dim,
                                    x,
                                    y,
                                    z,
                                ) == content_voxel(content, bounds@, dim, x, y, z) by {
                                    assert(content_voxel(
                                        VoxelContent::Leaf(chunks),
                                        bounds@,
                                        dim,
                                        x,
                                        y,
                                        z,
                                    ) == content_voxel(content, bounds@, dim, x, y, z));
                                }
                                lemma_unified_in_palettes(
                                    chunks,
                                    matrix,
                                    dim,
                                    color_palette.len() as int,
                                    data_palette.len() as int,
                                );
                            }
                            (VoxelContent::UniformLeaf(ChunkData::Parted(matrix)), true)
                        },
                        None => (VoxelContent::Leaf(chunks), simplified),
                    }
                },
            }
        },
    }
}

/// The value that all bricks of a leaf hold after their simplification, if all are solid
/// then and hold the same value.
pub open spec fn uniform_solid(bricks: Vec<ChunkData>) -> Option<PaletteIndexValues> {
    if exists|value: PaletteIndexValues| #[trigger] all_simplify_to(bricks, value) {
        Some(choose|value: PaletteIndexValues| #[trigger] all_simplify_to(bricks, value))
    } else {
        None
    }
}

/// Simplified bricks that are all solid with one value determine the uniform value.
pub proof fn lemma_uniform_solid(
    given: Vec<ChunkData>,
    simplified: Vec<ChunkData>,
    value: PaletteIndexValues,
)
    requires
        given.len() == 64,
        simplified.len() == 64,
        forall|s: int| 0 <= s < 64 ==> (#[trigger] simplified[s]) == simplified_brick(given[s]),
        all_solid(simplified, value),
    ensures
        uniform_solid(given) == Some(value),
{
    assert forall|s: int| 0 <= s < 64 implies simplified_brick(#[trigger] given[s])
        == ChunkData::Solid(value) by {
        assert(simplified[s] == ChunkData::Solid(value));
    }
    assert(all_simplify_to(given, value));
    let chosen = choose|value: PaletteIndexValues| #[trigger] all_simplify_to(given, value);
    assert(simplified_brick(given[0]) == ChunkData::Solid(chosen));
    assert(simplified_brick(given[0]) == ChunkData::Solid(value));
}

/// Simplified bricks that are not all solid with one value determine no uniform value.
pub proof fn lemma_not_uniform_solid(given: Vec<ChunkData>, simplified: Vec<ChunkData>)
    requires
        given.len() == 64,
        simplified.len() == 64,
        forall|s: int| 0 <= s < 64 ==> (#[trigger] simplified[s]) == simplified_brick(given[s]),
        forall|value: PaletteIndexValues| !#[trigger] all_solid(simplified, value),
    ensures
        uniform_solid(given) is None,
{
    if exists|value: PaletteIndexValues| #[trigger] all_simplify_to(given, value) {
        let value = choose|value: PaletteIndexValues| #[trigger] all_simplify_to(given, value);
        assert forall|s: int| 0 <= s < 64 implies #[trigger] simplified[s] == ChunkData::Solid(
            value,
        ) by {
            assert(simplified_brick(given[s]) == ChunkData::Solid(value));
        }
        assert(all_solid(simplified, value));
    }
}

/// A matrix that the bricks of a leaf show at four times its resolution refers to palette
/// entries where the bricks do.
pub proof fn lemma_unified_in_palettes(
    bricks: Vec<ChunkData>,
    matrix: Vec<PaletteIndexValues>,
    dim: int,
    colors: int,
    more: int,
)
    requires
        usable_dimension(dim),
        dim > 1,
        bricks.len() == 64,
        matrix.len() == brick_volume(dim),
        VoxelContent::Leaf(bricks).wf(dim),
        VoxelContent::Leaf(bricks).in_palettes(colors, more),
        bricks_show_matrix(bricks, matrix, dim),
    ensures
        ChunkData::Parted(matrix).in_palettes(colors, more),
        ChunkData::Parted(matrix).wf(dim),
{
    assert forall|j: int| 0 <= j < matrix.len() implies index_in_palettes(
        #[trigger] matrix[j],
        colors,
        more,
    ) by {
        lemma_shown_matrix_cell(bricks, matrix, j, dim);
        lemma_flat_index_of_coordinates(j, dim);
        lemma_first_of_block(j % dim, dim);
        lemma_first_of_block((j / dim) % dim, dim);
        lemma_first_of_block(j / dim / dim, dim);
        let s = flat_index(
            first_of_block(j % dim, dim).0,
            first_of_block((j / dim) % dim, dim).0,
            first_of_block(j / dim / dim, dim).0,
            4,
        );
        let c = flat_index(
            first_of_block(j % dim, dim).1,
            first_of_block((j / dim) % dim, dim).1,
            first_of_block(j / dim / dim, dim).1,
            dim,
        );
        lemma_flat_index_bound(
            first_of_block(j % dim, dim).1,
            first_of_block((j / dim) % dim, dim).1,
            first_of_block(j / dim / dim, dim).1,
            dim,
        );
        assert(bricks[s].in_palettes(colors, more));
        assert(bricks[s].wf(dim));
        lemma_value_in_palettes(bricks[s], c, colors, more);
    }
}

/// A value of a brick that refers to palette entries refers to palette entries.
pub proof fn lemma_value_in_palettes(brick: ChunkData, cell: int, colors: int, more: int)
    requires
        brick.in_palettes(colors, more),
        brick matches ChunkData::Parted(values) ==> 0 <= cell < values.len(),
    ensures
        index_in_palettes(brick.value_at(cell), colors, more),
{
    match brick {
        ChunkData::Parted(values) => {
            assert(index_in_palettes(values[cell], colors, more));
        },
        _ => {},
    }
}

} // verus!
