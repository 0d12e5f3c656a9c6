//! Updates of the bricks that a leaf node holds.
use vstd::prelude::*;
use crate::brick_update::{
    chunk_updated, dilute_for_sectant, in_update_box, lemma_diluted_voxel,
    lemma_written_in_palettes, written_value,
};
use crate::node::{brick_volume, filled_values};
use crate::palette::{
    color_index_of, data_index_of, has_color, has_data, index_in_palettes, lemma_index_halves,
    points_to_empty,
};
use crate::spatial::{
    flat_index, flat_projection, lemma_child_cube_contains, lemma_flat_index_bound,
    lemma_matrix_coordinate_bound, matrix_coordinate, matrix_index_for, Cube, V3c,
};
use crate::tree::{brick_voxel, content_voxel, Contree};
use crate::types::{
    Albedo, ChunkData, PaletteIndexValues, VoxelContent, VoxelData, EMPTY_MARKER,
};

verus! {

/// No color of the palette is transparent and no user data of the palette is empty.
pub open spec fn strict_palettes<V: VoxelData>(colors: Seq<Albedo>, data: Seq<V>) -> bool {
    &&& forall|i: int| 0 <= i < colors.len() ==> !(#[trigger] colors[i]).transparent()
    &&& forall|i: int| 0 <= i < data.len() ==> !(#[trigger] data[i]).empty()
}

/// With palettes that hold nothing transparent and nothing empty, the empty marker is the
/// only value that points to nothing.
pub proof fn lemma_strict_empty<V: VoxelData>(
    index: PaletteIndexValues,
    colors: Seq<Albedo>,
    data: Seq<V>,
)
    requires
        strict_palettes(colors, data),
        index_in_palettes(index, colors.len() as int, data.len() as int),
    ensures
        points_to_empty(index, colors, data) == (index == EMPTY_MARKER),
{
    if has_color(index) {
        assert(!colors[color_index_of(index)].transparent());
    }
    if has_data(index) {
        assert(!data[data_index_of(index)].empty());
    }
}

/// The brick dimension is one that bricks can be spread and indexed with.
pub open spec fn usable_dimension(dim: int) -> bool {
    &&& 0 < dim <= 1024
    &&& dim == 1 || dim == 2 || dim % 4 == 0
}

/// The number of voxels of a brick of the given edge length.
pub fn brick_len(chunk_dim: u32) -> (r: usize)
    requires
        0 < chunk_dim <= 1024,
    ensures
        r == brick_volume(chunk_dim as int),
        r > 0,
{
    assert(chunk_dim * chunk_dim <= 1024 * 1024 && chunk_dim * chunk_dim * chunk_dim <= 1024 * 1024
        * 1024 && chunk_dim * chunk_dim * chunk_dim > 0) by (nonlinear_arith)
        requires
            0 < chunk_dim <= 1024,
    ;
    (chunk_dim * chunk_dim * chunk_dim) as usize
}

/// What an update does to a brick, cell by cell: the cells that the update reaches hold the
/// written value, all others what they held.
pub open spec fn brick_written(
    after: ChunkData,
    before: ChunkData,
    overwrite: bool,
    data: PaletteIndexValues,
    mx: int,
    my: int,
    mz: int,
    size: int,
    dim: int,
) -> bool {
    forall|x: int, y: int, z: int|
        0 <= x < dim && 0 <= y < dim && 0 <= z < dim ==> after.value_at(
            #[trigger] flat_index(x, y, z, dim),
        ) == (if in_update_box(mx, my, mz, size, dim, x, y, z) {
            written_value(overwrite, before.value_at(flat_index(x, y, z, dim)), data)
        } else {
            before.value_at(flat_index(x, y, z, dim))
        })
}

/// The number of cells that the update of a brick reaches along the x axis, from the cell
/// `mx` on: as many as the size of the update and the edge of the brick allow; none where
/// the brick is solid with the value to write.
pub open spec fn brick_update_size(
    brick: ChunkData,
    data: PaletteIndexValues,
    mx: int,
    size: int,
    dim: int,
) -> int {
    if brick == ChunkData::Solid(data) {
        0
    } else {
        crate::spatial::min_int(dim - mx, size)
    }
}

/// Writes into one brick of a leaf. A brick that holds one value only, and would hold no
/// other afterwards, stays as it is; else the brick becomes a matrix and the update is
/// written into it. Returns the number of cells updated along the x axis.
pub fn update_brick<V: VoxelData>(
    brick: &mut ChunkData,
    overwrite_if_empty: bool,
    chunk_dim: u32,
    color_palette: &Vec<Albedo>,
    data_palette: &Vec<V>,
    target_bounds: &Cube,
    position: &V3c<u32>,
    size: u32,
    target_content: PaletteIndexValues,
) -> (update_size: usize)
    requires
        0 < chunk_dim <= 1024,
        old(brick).wf(chunk_dim as int),
        old(brick).in_palettes(color_palette.len() as int, data_palette.len() as int),
        index_in_palettes(target_content, color_palette.len() as int, data_palette.len() as int),
        strict_palettes(color_palette@, data_palette@),
        target_bounds.contains_point(position.x as int, position.y as int, position.z as int),
    ensures
        final(brick).wf(chunk_dim as int),
        final(brick).in_palettes(color_palette.len() as int, data_palette.len() as int),
        brick_written(
            *final(brick),
            *old(brick),
            overwrite_if_empty,
            target_content,
            matrix_coordinate(
                position.x - target_bounds.min_position.x,
                chunk_dim as int,
                target_bounds.size as int,
            ),
            matrix_coordinate(
                position.y - target_bounds.min_position.y,
                chunk_dim as int,
                target_bounds.size as int,
            ),
            matrix_coordinate(
                position.z - target_bounds.min_position.z,
                chunk_dim as int,
                target_bounds.size as int,
            ),
            size as int,
            chunk_dim as int,
        ),
        // a solid brick that holds the value already stays as it is; any other brick is a
        // matrix afterwards
        *old(brick) == ChunkData::Solid(target_content) ==> *final(brick) == *old(brick),
        *old(brick) != ChunkData::Solid(target_content) ==> *final(brick) is Parted,
        update_size == brick_update_size(
            *old(brick),
            target_content,
            matrix_coordinate(
                position.x - target_bounds.min_position.x,
                chunk_dim as int,
                target_bounds.size as int,
            ),
            size as int,
            chunk_dim as int,
        ),
{
    let ghost dim = chunk_dim as int;
    let ghost colors = color_palette.len() as int;
    let ghost more = data_palette.len() as int;
    let ghost mx = matrix_coordinate(position.x - target_bounds.min_position.x, dim,
        target_bounds.size as int);
    let ghost my = matrix_coordinate(position.y - target_bounds.min_position.y, dim,
        target_bounds.size as int);
    let ghost mz = matrix_coordinate(position.z - target_bounds.min_position.z, dim,
        target_bounds.size as int);
    let ghost before = *brick;
    proof {
        lemma_strict_empty(target_content, color_palette@, data_palette@);
        lemma_index_halves(target_content);
    }
    let fill: Option<PaletteIndexValues> = match brick {
        ChunkData::Empty => Some(EMPTY_MARKER),
        ChunkData::Solid(voxel) => {
            proof {
                lemma_strict_empty(*voxel, color_palette@, data_palette@);
            }
            let target_empty: bool = VoxelContent::pix_points_to_empty(
                &target_content,
                color_palette,
                data_palette,
            );
            let voxel_empty: bool = VoxelContent::pix_points_to_empty(
                voxel,
                color_palette,
                data_palette,
            );
            if (target_empty && !voxel_empty) || (!target_empty && *voxel != target_content) {
                Some(*voxel)
            } else {
                // the brick holds the value already
                assert(*voxel == target_content);
                return 0;
            }
        },
        ChunkData::Parted(_) => None,
    };
    if let Some(value) = fill {
        *brick = ChunkData::Parted(filled_values(value, brick_len(chunk_dim)));
    }
    assert(forall|i: int| 0 <= i < brick_volume(dim) ==> brick.value_at(i) == before.value_at(i));
    let ghost spread = *brick;
    let update_size: usize = match brick {
        ChunkData::Parted(chunk) => Contree::<V>::update_chunk(
            overwrite_if_empty,
            chunk,
            target_bounds,
            chunk_dim,
            *position,
            size,
            &target_content,
        ),
        _ => 0,
    };
    let ghost after = *brick;
    proof {
        assert forall|x: int, y: int, z: int|
            0 <= x < dim && 0 <= y < dim && 0 <= z < dim implies brick.value_at(
            #[trigger] flat_index(x, y, z, dim),
        ) == (if in_update_box(mx, my, mz, size as int, dim, x, y, z) {
            written_value(overwrite_if_empty, before.value_at(flat_index(x, y, z, dim)),
                target_content)
        } else {
            before.value_at(flat_index(x, y, z, dim))
        }) by {
            lemma_flat_index_bound(x, y, z, dim);
            assert(spread.value_at(flat_index(x, y, z, dim)) == before.value_at(
                flat_index(x, y, z, dim),
            ));
        }
        match after {
            ChunkData::Parted(values) => {
                assert forall|i: int| 0 <= i < values.len() implies index_in_palettes(
                    #[trigger] values[i],
                    colors,
                    more,
                ) by {
                    crate::spatial::lemma_flat_index_of_coordinates(i, dim);
                    let x = i % dim;
                    let y = (i / dim) % dim;
                    let z = i / dim / dim;
                    assert(brick.value_at(flat_index(x, y, z, dim)) == values[i]);
                    assert(index_in_palettes(spread.value_at(i), colors, more)) by {
                        match before {
                            ChunkData::Parted(old_values) => {
                                assert(index_in_palettes(old_values[i], colors, more));
                            },
                            _ => {},
                        }
                    }
                    lemma_written_in_palettes(
                        overwrite_if_empty,
                        spread.value_at(i),
                        target_content,
                        colors,
                        more,
                    );
                }
            },
            _ => {},
        }
    }
    update_size
}

/// What the update of a single voxel does to the content of a node: the voxel holds the
/// written value, all others what they held.
pub open spec fn single_voxel_written(
    after: VoxelContent,
    before: VoxelContent,
    bounds: Cube,
    dim: int,
    overwrite: bool,
    data: PaletteIndexValues,
    px: int,
    py: int,
    pz: int,
) -> bool {
    forall|x: int, y: int, z: int|
        bounds.contains_point(x, y, z) ==> #[trigger] content_voxel(after, bounds, dim, x, y, z)
            == (if x == px && y == py && z == pz {
            written_value(overwrite, content_voxel(before, bounds, dim, x, y, z), data)
        } else {
            content_voxel(before, bounds, dim, x, y, z)
        })
}

/// Every voxel of the cube holds after the update what it held before, or the value written
/// over that.
pub open spec fn voxels_kept_or_written(
    after: VoxelContent,
    before: VoxelContent,
    bounds: Cube,
    dim: int,
    overwrite: bool,
    data: PaletteIndexValues,
) -> bool {
    forall|x: int, y: int, z: int|
        bounds.contains_point(x, y, z) ==> (#[trigger] content_voxel(after, bounds, dim, x, y, z)
            == content_voxel(before, bounds, dim, x, y, z) || content_voxel(
            after,
            bounds,
            dim,
            x,
            y,
            z,
        ) == written_value(overwrite, content_voxel(before, bounds, dim, x, y, z), data))
}

/// A leaf in which one brick was updated holds at every voxel what it held before, or the
/// value written over that.
pub proof fn lemma_leaf_kept_or_written(
    after: Vec<ChunkData>,
    before: Vec<ChunkData>,
    bounds: Cube,
    dim: int,
    sectant: int,
    overwrite: bool,
    data: PaletteIndexValues,
    mx: int,
    my: int,
    mz: int,
    size: int,
)
    requires
        0 < dim,
        bounds.wf(),
        bounds.size % 4 == 0,
        0 <= sectant < 64,
        after.len() == 64,
        before.len() == 64,
        forall|s: int| 0 <= s < 64 && s != sectant ==> after[s] == before[s],
        brick_written(after[sectant], before[sectant], overwrite, data, mx, my, mz, size, dim),
    ensures
        voxels_kept_or_written(
            VoxelContent::Leaf(after),
            VoxelContent::Leaf(before),
            bounds,
            dim,
            overwrite,
            data,
        ),
{
    assert forall|x: int, y: int, z: int| bounds.contains_point(x, y, z) implies (
    #[trigger] content_voxel(VoxelContent::Leaf(after), bounds, dim, x, y, z) == content_voxel(
        VoxelContent::Leaf(before),
        bounds,
        dim,
        x,
        y,
        z,
    ) || content_voxel(VoxelContent::Leaf(after), bounds, dim, x, y, z) == written_value(
        overwrite,
        content_voxel(VoxelContent::Leaf(before), bounds, dim, x, y, z),
        data,
    )) by {
        lemma_child_cube_contains(bounds, x, y, z);
        let s = bounds.sectant_of(x, y, z);
        if s == sectant {
            let child = bounds.child_cube(s);
            let cx = matrix_coordinate(x - child.min_position.x, dim, child.size as int);
            let cy = matrix_coordinate(y - child.min_position.y, dim, child.size as int);
            let cz = matrix_coordinate(z - child.min_position.z, dim, child.size as int);
            lemma_matrix_coordinate_bound(x - child.min_position.x, dim, child.size as int);
            lemma_matrix_coordinate_bound(y - child.min_position.y, dim, child.size as int);
            lemma_matrix_coordinate_bound(z - child.min_position.z, dim, child.size as int);
            assert(after[sectant].value_at(flat_index(cx, cy, cz, dim)) == (if in_update_box(
                mx,
                my,
                mz,
                size,
                dim,
                cx,
                cy,
                cz,
            ) {
                written_value(
                    overwrite,
                    before[sectant].value_at(flat_index(cx, cy, cz, dim)),
                    data,
                )
            } else {
                before[sectant].value_at(flat_index(cx, cy, cz, dim))
            }));
        }
    }
}

/// The position lies in the part of the cube `target`, held by one brick, that an update of
/// the given size starting at `(px, py, pz)` reaches.
pub open spec fn in_written_box(
    target: Cube,
    dim: int,
    px: int,
    py: int,
    pz: int,
    size: int,
    x: int,
    y: int,
    z: int,
) -> bool {
    &&& target.contains_point(x, y, z)
    &&& in_update_box(
        matrix_coordinate(px - target.min_position.x, dim, target.size as int),
        matrix_coordinate(py - target.min_position.y, dim, target.size as int),
        matrix_coordinate(pz - target.min_position.z, dim, target.size as int),
        size,
        dim,
        matrix_coordinate(x - target.min_position.x, dim, target.size as int),
        matrix_coordinate(y - target.min_position.y, dim, target.size as int),
        matrix_coordinate(z - target.min_position.z, dim, target.size as int),
    )
}

/// What an update does to the content of a node, voxel by voxel: the voxels of the target
/// cube that the update reaches hold the written value, all others what they held.
pub open spec fn box_written(
    after: VoxelContent,
    before: VoxelContent,
    bounds: Cube,
    target: Cube,
    dim: int,
    overwrite: bool,
    data: PaletteIndexValues,
    px: int,
    py: int,
    pz: int,
    size: int,
) -> bool {
    forall|x: int, y: int, z: int|
        bounds.contains_point(x, y, z) ==> #[trigger] content_voxel(after, bounds, dim, x, y, z)
            == (if in_written_box(target, dim, px, py, pz, size, x, y, z) {
            written_value(overwrite, content_voxel(before, bounds, dim, x, y, z), data)
        } else {
            content_voxel(before, bounds, dim, x, y, z)
        })
}

/// A leaf in which the brick of one sectant was updated holds the written value at the
/// voxels of that sectant that the update reaches, and at all others what it held.
pub proof fn lemma_leaf_box_written(
    after: Vec<ChunkData>,
    before: Vec<ChunkData>,
    bounds: Cube,
    dim: int,
    sectant: int,
    overwrite: bool,
    data: PaletteIndexValues,
    px: int,
    py: int,
    pz: int,
    size: int,
)
    requires
        0 < dim,
        bounds.wf(),
        bounds.size % 4 == 0,
        bounds.size >= 4,
        0 <= sectant < 64,
        after.len() == 64,
        before.len() == 64,
        forall|s: int| 0 <= s < 64 && s != sectant ==> after[s] == before[s],
        brick_written(
            after[sectant],
            before[sectant],
            overwrite,
            data,
            matrix_coordinate(
                px - bounds.child_cube(sectant).min_position.x,
                dim,
                bounds.child_cube(sectant).size as int,
            ),
            matrix_coordinate(
                py - bounds.child_cube(sectant).min_position.y,
                dim,
                bounds.child_cube(sectant).size as int,
            ),
            matrix_coordinate(
                pz - bounds.child_cube(sectant).min_position.z,
                dim,
                bounds.child_cube(sectant).size as int,
            ),
            size,
            dim,
        ),
        after[sectant] is Parted || after[sectant] == before[sectant],
        after[sectant].wf(dim),
    ensures
        box_written(
            VoxelContent::Leaf(after),
            VoxelContent::Leaf(before),
            bounds,
            bounds.child_cube(sectant),
            dim,
            overwrite,
            data,
            px,
            py,
            pz,
            size,
        ),
{
    let target = bounds.child_cube(sectant);
    assert forall|x: int, y: int, z: int|
        bounds.contains_point(x, y, z) implies #[trigger] content_voxel(
        VoxelContent::Leaf(after),
        bounds,
        dim,
        x,
        y,
        z,
    ) == (if in_written_box(target, dim, px, py, pz, size, x, y, z) {
        written_value(
            overwrite,
            content_voxel(VoxelContent::Leaf(before), bounds, dim, x, y, z),
            data,
        )
    } else {
        content_voxel(VoxelContent::Leaf(before), bounds, dim, x, y, z)
    }) by {
        lemma_child_cube_contains(bounds, x, y, z);
        let s = bounds.sectant_of(x, y, z);
        if s == sectant {
            let cx = matrix_coordinate(x - target.min_position.x, dim, target.size as int);
            let cy = matrix_coordinate(y - target.min_position.y, dim, target.size as int);
            let cz = matrix_coordinate(z - target.min_position.z, dim, target.size as int);
            lemma_matrix_coordinate_bound(x - target.min_position.x, dim, target.size as int);
            lemma_matrix_coordinate_bound(y - target.min_position.y, dim, target.size as int);
            lemma_matrix_coordinate_bound(z - target.min_position.z, dim, target.size as int);
            lemma_flat_index_bound(cx, cy, cz, dim);
            assert(after[sectant].value_at(flat_index(cx, cy, cz, dim)) == (if in_update_box(
                matrix_coordinate(px - target.min_position.x, dim, target.size as int),
                matrix_coordinate(py - target.min_position.y, dim, target.size as int),
                matrix_coordinate(pz - target.min_position.z, dim, target.size as int),
                size,
                dim,
                cx,
                cy,
                cz,
            ) {
                written_value(
                    overwrite,
                    before[sectant].value_at(flat_index(cx, cy, cz, dim)),
                    data,
                )
            } else {
                before[sectant].value_at(flat_index(cx, cy, cz, dim))
            }));
        } else {
            if target.contains_point(x, y, z) {
                crate::semantics::lemma_sectant_of_child_point(bounds, sectant, x, y, z);
            }
        }
    }
}

/// The content holds the value to write at the position already, in a brick that stands
/// for the whole node: such a node is not written into, whatever the size of the update.
pub open spec fn write_skipped(
    content: VoxelContent,
    bounds: Cube,
    dim: int,
    data: PaletteIndexValues,
    px: int,
    py: int,
    pz: int,
) -> bool {
    match content {
        VoxelContent::UniformLeaf(brick) => if brick is Parted {
            dim > 1 && brick_voxel(brick, bounds, dim, px, py, pz) == data
        } else {
            brick.value_at(0) == data
        },
        _ => false,
    }
}

/// The brick of the sectant is solid with the value.
pub open spec fn holds_solid(content: VoxelContent, sectant: int,
    data: PaletteIndexValues) -> bool {
    match content {
        VoxelContent::Leaf(bricks) => bricks[sectant] == ChunkData::Solid(data),
        _ => false,
    }
}

/// What the update of a node that is not divided gives: the content afterwards, and the
/// number of cells updated along the x axis. A uniform leaf that holds the value at the
/// position already is kept, and no cell is updated. A leaf whose brick of the target
/// sectant is solid with the value stays as it is, and no cell is updated. Any other content
/// becomes a leaf in which the voxels of the target sectant that the update reaches hold
/// the written value; the cells updated are as many as the size of the update and the
/// brick allow.
pub open spec fn leaf_updated(
    after: VoxelContent,
    update_size: int,
    before: VoxelContent,
    bounds: Cube,
    sectant: int,
    dim: int,
    overwrite: bool,
    data: PaletteIndexValues,
    px: int,
    py: int,
    pz: int,
    size: int,
) -> bool {
    let target = bounds.child_cube(sectant);
    if write_skipped(before, bounds, dim, data, px, py, pz) {
        &&& update_size == 0
        &&& after == kept_content(before)
    } else if holds_solid(before, sectant, data) {
        &&& update_size == 0
        &&& after == before
    } else {
        &&& after is Leaf
        &&& box_written(after, before, bounds, target, dim, overwrite, data, px, py, pz, size)
        &&& update_size == crate::spatial::min_int(
            dim - matrix_coordinate(px - target.min_position.x, dim, target.size as int),
            size,
        )
    }
}

/// The content that a node keeps when a write into it is skipped: the content as it was;
/// but a uniform leaf that is solid with the empty marker becomes a node that holds nothing.
pub open spec fn kept_content(content: VoxelContent) -> VoxelContent {
    if content == VoxelContent::UniformLeaf(ChunkData::Solid(EMPTY_MARKER)) {
        VoxelContent::Nothing
    } else {
        content
    }
}

/// The two contents show the same value at every position of the cube.
pub open spec fn same_voxels(after: VoxelContent, before: VoxelContent, bounds: Cube,
    dim: int) -> bool {
    forall|x: int, y: int, z: int|
        bounds.contains_point(x, y, z) ==> #[trigger] content_voxel(after, bounds, dim, x, y, z)
            == content_voxel(before, bounds, dim, x, y, z)
}

/// A value written over itself stays as it is.
pub proof fn lemma_written_same(overwrite: bool, value: PaletteIndexValues)
    ensures
        written_value(overwrite, value, value) == value,
        written_value(overwrite, value, EMPTY_MARKER) == (if overwrite {
            EMPTY_MARKER
        } else {
            value
        }),
{
    lemma_index_halves(value);
}

/// A cube that is as many voxels long as its brick has cells has one cell for each voxel.
pub proof fn lemma_unit_cells(offset: int, dim: int)
    requires
        0 <= offset,
        0 < dim,
    ensures
        matrix_coordinate(offset, dim, dim) == offset,
{
    assert(offset * dim / dim == offset) by (nonlinear_arith)
        requires
            0 < dim,
    ;
}

/// A leaf in which one brick was updated at a single cell, in a node whose bricks have one
/// cell for each voxel, differs from what it was at that voxel only.
pub proof fn lemma_leaf_single(
    after: Vec<ChunkData>,
    before: Vec<ChunkData>,
    bounds: Cube,
    dim: int,
    sectant: int,
    overwrite: bool,
    data: PaletteIndexValues,
    px: int,
    py: int,
    pz: int,
)
    requires
        0 < dim,
        bounds.wf(),
        bounds.size == 4 * dim,
        bounds.contains_point(px, py, pz),
        sectant == bounds.sectant_of(px, py, pz),
        after.len() == 64,
        before.len() == 64,
        forall|s: int| 0 <= s < 64 && s != sectant ==> after[s] == before[s],
        brick_written(
            after[sectant],
            before[sectant],
            overwrite,
            data,
            matrix_coordinate(px - bounds.child_cube(sectant).min_position.x, dim, dim),
            matrix_coordinate(py - bounds.child_cube(sectant).min_position.y, dim, dim),
            matrix_coordinate(pz - bounds.child_cube(sectant).min_position.z, dim, dim),
            1,
            dim,
        ),
    ensures
        single_voxel_written(
            VoxelContent::Leaf(after),
            VoxelContent::Leaf(before),
            bounds,
            dim,
            overwrite,
            data,
            px,
            py,
            pz,
        ),
{
    let child = bounds.child_cube(sectant);
    lemma_child_cube_contains(bounds, px, py, pz);
    lemma_unit_cells(px - child.min_position.x, dim);
    lemma_unit_cells(py - child.min_position.y, dim);
    lemma_unit_cells(pz - child.min_position.z, dim);
    assert forall|x: int, y: int, z: int| bounds.contains_point(x, y,
        z) implies #[trigger] content_voxel(
        VoxelContent::Leaf(after),
        bounds,
        dim,
        x,
        y,
        z,
    ) == (if x == px && y == py && z == pz {
        written_value(
            overwrite,
            content_voxel(VoxelContent::Leaf(before), bounds, dim, x, y, z),
            data,
        )
    } else {
        content_voxel(VoxelContent::Leaf(before), bounds, dim, x, y, z)
    }) by {
        lemma_child_cube_contains(bounds, x, y, z);
        let s = bounds.sectant_of(x, y, z);
        if s == sectant {
            lemma_unit_cells(x - child.min_position.x, dim);
            lemma_unit_cells(y - child.min_position.y, dim);
            lemma_unit_cells(z - child.min_position.z, dim);
            let cx = x - child.min_position.x;
            let cy = y - child.min_position.y;
            let cz = z - child.min_position.z;
            assert(0 <= cx < dim && 0 <= cy < dim && 0 <= cz < dim);
            assert(after[sectant].value_at(flat_index(cx, cy, cz, dim)) == (if in_update_box(
                px - child.min_position.x,
                py - child.min_position.y,
                pz - child.min_position.z,
                1,
                dim,
                cx,
                cy,
                cz,
            ) {
                written_value(
                    overwrite,
                    before[sectant].value_at(flat_index(cx, cy, cz, dim)),
                    data,
                )
            } else {
                before[sectant].value_at(flat_index(cx, cy, cz, dim))
            }));
        }
    }
}

/// A leaf of sixty-four empty bricks.
pub fn empty_leaf() -> (r: Vec<ChunkData>)
    ensures
        r.len() == 64,
        forall|s: int| 0 <= s < 64 ==> #[trigger] r[s] == ChunkData::Empty,
{
    let mut r: Vec<ChunkData> = Vec::new();
    let mut s: usize = 0;
    while s < 64
        invariant
            s <= 64,
            r.len() == s,
            forall|j: int| 0 <= j < s ==> #[trigger] r[j] == ChunkData::Empty,
        decreases 64 - s,
    {
        r.push(ChunkData::Empty);
        s += 1;
    }
    r
}

/// The leaf whose bricks are the given matrices.
pub fn leaf_of_chunks(chunks: Vec<Vec<PaletteIndexValues>>) -> (r: Vec<ChunkData>)
    requires
        chunks.len() == 64,
    ensures
        r.len() == 64,
        forall|s: int| 0 <= s < 64 ==> #[trigger] r[s] == ChunkData::Parted(chunks[s]),
{
    let mut chunks = chunks;
    let ghost given = chunks;
    let mut r: Vec<ChunkData> = Vec::new();
    let mut s: usize = 0;
    while s < 64
        invariant
            s <= 64,
            r.len() == s,
            chunks.len() == 64,
            given.len() == 64,
            forall|j: int| s <= j < 64 ==> chunks[j] == given[j],
            forall|j: int| 0 <= j < s ==> #[trigger] r[j] == ChunkData::Parted(given[j]),
        decreases 64 - s,
    {
        let mut taken: Vec<PaletteIndexValues> = Vec::new();
        core::mem::swap(&mut chunks[s], &mut taken);
        r.push(ChunkData::Parted(taken));
        s += 1;
    }
    r
}

/// What holds of the palettes and of the value that an update writes.
pub open spec fn update_palettes_ok<V: VoxelData>(
    chunk_dim: u32,
    colors: Seq<Albedo>,
    data: Seq<V>,
    target_content: PaletteIndexValues,
) -> bool {
    &&& usable_dimension(chunk_dim as int)
    &&& index_in_palettes(target_content, colors.len() as int, data.len() as int)
    &&& strict_palettes(colors, data)
}

/// The matrix that shows what the brick of a uniform leaf shows; or, where the brick holds
/// one value only and that value is the one to write, the content that the node keeps.
pub fn uniform_matrix<V: VoxelData>(
    mat: ChunkData,
    chunk_dim: u32,
    color_palette: &Vec<Albedo>,
    data_palette: &Vec<V>,
    target_content: PaletteIndexValues,
) -> (r: Result<Vec<PaletteIndexValues>, VoxelContent>)
    requires
        update_palettes_ok(chunk_dim, color_palette@, data_palette@, target_content),
        mat.wf(chunk_dim as int),
        mat.in_palettes(color_palette.len() as int, data_palette.len() as int),
    ensures
        match r {
            Ok(matrix) => {
                &&& matrix.len() == brick_volume(chunk_dim as int)
                &&& forall|i: int| 0 <= i < matrix.len() ==> #[trigger] matrix[i] == mat.value_at(i)
                &&& ChunkData::Parted(matrix).in_palettes(
                    color_palette.len() as int,
                    data_palette.len() as int,
                )
                &&& mat is Parted || mat.value_at(0) != target_content
                &&& mat is Parted ==> mat == ChunkData::Parted(matrix)
            },
            Err(content) => {
                &&& !(mat is Parted)
                &&& mat.value_at(0) == target_content
                &&& content == kept_content(VoxelContent::UniformLeaf(mat))
            },
        },
{
    proof {
        lemma_strict_empty(target_content, color_palette@, data_palette@);
    }
    let target_empty: bool = VoxelContent::pix_points_to_empty(
        &target_content,
        color_palette,
        data_palette,
    );
    match mat {
        ChunkData::Empty => {
            if target_empty {
                return Err(VoxelContent::UniformLeaf(ChunkData::Empty));
            }
            Ok(filled_values(EMPTY_MARKER, brick_len(chunk_dim)))
        },
        ChunkData::Solid(voxel) => {
            proof {
                lemma_strict_empty(voxel, color_palette@, data_palette@);
            }
            let voxel_empty: bool = VoxelContent::pix_points_to_empty(
                &voxel,
                color_palette,
                data_palette,
            );
            if target_empty && voxel_empty {
                return Err(VoxelContent::Nothing);
            }
            if (!target_empty && voxel != target_content) || (target_empty && !voxel_empty) {
                Ok(filled_values(voxel, brick_len(chunk_dim)))
            } else {
                Err(VoxelContent::UniformLeaf(ChunkData::Solid(voxel)))
            }
        },
        ChunkData::Parted(chunk) => Ok(chunk),
    }
}

/// A leaf whose bricks show a matrix at four times its resolution shows what a uniform leaf
/// with that matrix shows.
pub proof fn lemma_spread_same_voxels(
    spread: Vec<ChunkData>,
    child_chunks: Vec<Vec<PaletteIndexValues>>,
    source: Vec<PaletteIndexValues>,
    bounds: Cube,
    dim: int,
)
    requires
        usable_dimension(dim),
        bounds.wf(),
        bounds.size % 4 == 0,
        spread.len() == 64,
        child_chunks.len() == 64,
        forall|s: int| 0 <= s < 64 ==> #[trigger] spread[s] == ChunkData::Parted(child_chunks[s]),
        forall|sectant: int, x: int, y: int, z: int|
            0 <= sectant < 64 && 0 <= x < dim && 0 <= y < dim && 0 <= z < dim
                ==> child_chunks[sectant][#[trigger] flat_index(x, y, z, dim)]
                == source[#[trigger] crate::brick_update::diluted_source(sectant, x, y, z, dim)],
    ensures
        same_voxels(
            VoxelContent::Leaf(spread),
            VoxelContent::UniformLeaf(ChunkData::Parted(source)),
            bounds,
            dim,
        ),
{
    assert forall|x: int, y: int, z: int| bounds.contains_point(x, y,
        z) implies #[trigger] content_voxel(
        VoxelContent::Leaf(spread),
        bounds,
        dim,
        x,
        y,
        z,
    ) == content_voxel(VoxelContent::UniformLeaf(ChunkData::Parted(source)), bounds, dim, x, y,
        z) by {
        let s = bounds.sectant_of(x, y, z);
        lemma_child_cube_contains(bounds, x, y, z);
        assert(spread[s] == ChunkData::Parted(child_chunks[s]));
        lemma_diluted_voxel(bounds, dim, x, y, z, source, child_chunks[s]);
    }
}

/// The bricks that show a matrix at four times its resolution refer to palette entries
/// where the matrix does.
pub proof fn lemma_spread_in_palettes(
    child_chunk: Vec<PaletteIndexValues>,
    source: Vec<PaletteIndexValues>,
    sectant: int,
    dim: int,
    colors: int,
    more: int,
)
    requires
        usable_dimension(dim),
        0 <= sectant < 64,
        source.len() == brick_volume(dim),
        child_chunk.len() == brick_volume(dim),
        ChunkData::Parted(source).in_palettes(colors, more),
        forall|x: int, y: int, z: int|
            0 <= x < dim && 0 <= y < dim && 0 <= z < dim ==> child_chunk[#[trigger] flat_index(
                x,
                y,
                z,
                dim,
            )] == source[crate::brick_update::diluted_source(sectant, x, y, z, dim)],
    ensures
        ChunkData::Parted(child_chunk).in_palettes(colors, more),
        ChunkData::Parted(child_chunk).wf(dim),
{
    assert forall|i: int| 0 <= i < child_chunk.len() implies index_in_palettes(
        #[trigger] child_chunk[i],
        colors,
        more,
    ) by {
        crate::spatial::lemma_flat_index_of_coordinates(i, dim);
        let x = i % dim;
        let y = (i / dim) % dim;
        let z = i / dim / dim;
        lemma_spread_cell(child_chunk, source, sectant, dim, colors, more, x, y, z);
    }
}

/// One cell of a brick that shows a matrix at four times its resolution refers to palette
/// entries where the matrix does.
pub proof fn lemma_spread_cell(
    child_chunk: Vec<PaletteIndexValues>,
    source: Vec<PaletteIndexValues>,
    sectant: int,
    dim: int,
    colors: int,
    more: int,
    x: int,
    y: int,
    z: int,
)
    requires
        usable_dimension(dim),
        0 <= sectant < 64,
        0 <= x < dim,
        0 <= y < dim,
        0 <= z < dim,
        source.len() == brick_volume(dim),
        ChunkData::Parted(source).in_palettes(colors, more),
        child_chunk[flat_index(x, y, z, dim)] == source[crate::brick_update::diluted_source(
            sectant,
            x,
            y,
            z,
            dim,
        )],
    ensures
        index_in_palettes(child_chunk[flat_index(x, y, z, dim)], colors, more),
{
    let j = crate::brick_update::diluted_source(sectant, x, y, z, dim);
    crate::brick_update::lemma_diluted_source_bound(sectant, x, y, z, dim);
    assert(ChunkData::Parted(source) matches ChunkData::Parted(brick) && index_in_palettes(
        brick[j],
        colors,
        more,
    ));
}

/// A uniform leaf with a matrix shows at each position the value of the cell of the position.
pub proof fn lemma_uniform_matrix_voxels(
    matrix: Vec<PaletteIndexValues>,
    mat: ChunkData,
    bounds: Cube,
    dim: int,
)
    requires
        0 < dim,
        matrix.len() == brick_volume(dim),
        forall|i: int| 0 <= i < matrix.len() ==> #[trigger] matrix[i] == mat.value_at(i),
    ensures
        same_voxels(
            VoxelContent::UniformLeaf(ChunkData::Parted(matrix)),
            VoxelContent::UniformLeaf(mat),
            bounds,
            dim,
        ),
{
    assert forall|x: int, y: int, z: int| bounds.contains_point(x, y,
        z) implies #[trigger] content_voxel(
        VoxelContent::UniformLeaf(ChunkData::Parted(matrix)),
        bounds,
        dim,
        x,
        y,
        z,
    ) == content_voxel(VoxelContent::UniformLeaf(mat), bounds, dim, x, y, z) by {
        let mx = matrix_coordinate(x - bounds.min_position.x, dim, bounds.size as int);
        let my = matrix_coordinate(y - bounds.min_position.y, dim, bounds.size as int);
        let mz = matrix_coordinate(z - bounds.min_position.z, dim, bounds.size as int);
        lemma_matrix_coordinate_bound(x - bounds.min_position.x, dim, bounds.size as int);
        lemma_matrix_coordinate_bound(y - bounds.min_position.y, dim, bounds.size as int);
        lemma_matrix_coordinate_bound(z - bounds.min_position.z, dim, bounds.size as int);
        lemma_flat_index_bound(mx, my, mz, dim);
        assert(matrix[flat_index(mx, my, mz, dim)] == mat.value_at(flat_index(mx, my, mz, dim)));
    }
}

/// The leaf whose bricks show the matrix of a uniform leaf at four times its resolution; or
/// the uniform leaf as it is, where its voxel at the position holds the value to write.
pub fn spread_matrix<V: VoxelData>(
    matrix: Vec<PaletteIndexValues>,
    chunk_dim: u32,
    color_palette: &Vec<Albedo>,
    data_palette: &Vec<V>,
    node_bounds: &Cube,
    position: &V3c<u32>,
    target_content: PaletteIndexValues,
) -> (r: Result<Vec<ChunkData>, VoxelContent>)
    requires
        update_palettes_ok(chunk_dim, color_palette@, data_palette@, target_content),
        matrix.len() == brick_volume(chunk_dim as int),
        ChunkData::Parted(matrix).in_palettes(
            color_palette.len() as int,
            data_palette.len() as int,
        ),
        node_bounds.wf(),
        node_bounds.size % 4 == 0,
        node_bounds.contains_point(position.x as int, position.y as int, position.z as int),
    ensures
        match r {
            Ok(leaf) => {
                &&& VoxelContent::Leaf(leaf).wf(chunk_dim as int)
                &&& VoxelContent::Leaf(leaf).in_palettes(
                    color_palette.len() as int,
                    data_palette.len() as int,
                )
                &&& same_voxels(
                    VoxelContent::Leaf(leaf),
                    VoxelContent::UniformLeaf(ChunkData::Parted(matrix)),
                    *node_bounds,
                    chunk_dim as int,
                )
                &&& forall|s: int| 0 <= s < 64 ==> (#[trigger] leaf[s]) is Parted
                &&& chunk_dim == 1 || content_voxel(
                    VoxelContent::UniformLeaf(ChunkData::Parted(matrix)),
                    *node_bounds,
                    chunk_dim as int,
                    position.x as int,
                    position.y as int,
                    position.z as int,
                ) != target_content
            },
            Err(content) => {
                &&& chunk_dim > 1
                &&& content == VoxelContent::UniformLeaf(ChunkData::Parted(matrix))
                &&& content_voxel(
                    content,
                    *node_bounds,
                    chunk_dim as int,
                    position.x as int,
                    position.y as int,
                    position.z as int,
                ) == target_content
            },
        },
{
    let ghost dim = chunk_dim as int;
    proof {
        lemma_strict_empty(target_content, color_palette@, data_palette@);
    }
    let target_empty: bool = VoxelContent::pix_points_to_empty(
        &target_content,
        color_palette,
        data_palette,
    );
    let mat_index: V3c<usize> = matrix_index_for(node_bounds, position, chunk_dim);
    proof {
        lemma_flat_index_bound(mat_index.x as int, mat_index.y as int, mat_index.z as int, dim);
    }
    let flat: usize = flat_projection(mat_index.x, mat_index.y, mat_index.z, chunk_dim as usize);
    assert(0 <= flat < matrix.len());
    assert(ChunkData::Parted(matrix) matches ChunkData::Parted(brick) && index_in_palettes(
        brick[flat as int],
        color_palette.len() as int,
        data_palette.len() as int,
    ));
    proof {
        lemma_strict_empty(matrix[flat as int], color_palette@, data_palette@);
    }
    let present: PaletteIndexValues = matrix[flat];
    if 1 < chunk_dim && ((target_empty && VoxelContent::pix_points_to_empty(
        &present,
        color_palette,
        data_palette,
    )) || (!target_empty && present == target_content)) {
        // the voxel at the position holds the value already
        return Err(VoxelContent::UniformLeaf(ChunkData::Parted(matrix)));
    }
    // each brick of the leaf takes up one part of the matrix
    let ghost source = matrix;
    let child_chunks: Vec<Vec<PaletteIndexValues>> = Contree::<V>::dilute_chunk_data(
        matrix,
        chunk_dim,
    );
    let ghost chunks = child_chunks;
    let spread: Vec<ChunkData> = leaf_of_chunks(child_chunks);
    proof {
        lemma_spread_same_voxels(spread, chunks, source, *node_bounds, dim);
        assert forall|s: int| 0 <= s < 64 implies (#[trigger] spread[s]).wf(dim)
            && spread[s].in_palettes(
            color_palette.len() as int,
            data_palette.len() as int,
        ) by {
            assert(spread[s] == ChunkData::Parted(chunks[s]));
            assert(chunks[s].len() == source.len());
            lemma_spread_in_palettes(
                chunks[s],
                source,
                s,
                dim,
                color_palette.len() as int,
                data_palette.len() as int,
            );
        }
    }
    Ok(spread)
}

/// A leaf of empty bricks shows nothing, as a node that holds nothing does.
pub proof fn lemma_empty_leaf(leaf: Vec<ChunkData>, bounds: Cube, dim: int)
    requires
        bounds.wf(),
        bounds.size % 4 == 0,
        leaf.len() == 64,
        forall|s: int| 0 <= s < 64 ==> #[trigger] leaf[s] == ChunkData::Empty,
    ensures
        VoxelContent::Leaf(leaf).wf(dim),
        forall|colors: int, more: int| VoxelContent::Leaf(leaf).in_palettes(colors, more),
        same_voxels(VoxelContent::Leaf(leaf), VoxelContent::Nothing, bounds, dim),
        same_voxels(VoxelContent::Leaf(leaf), VoxelContent::Internal(0), bounds, dim),
{
    assert forall|x: int, y: int, z: int| bounds.contains_point(x, y,
        z) implies #[trigger] content_voxel(
        VoxelContent::Leaf(leaf),
        bounds,
        dim,
        x,
        y,
        z,
    ) == EMPTY_MARKER by {
        lemma_child_cube_contains(bounds, x, y, z);
        assert(leaf[bounds.sectant_of(x, y, z)] == ChunkData::Empty);
    }
}

/// The bricks of a leaf that shows what the content shows; or, where the content holds the
/// value to write at the position already, the content that the node keeps.
pub fn leaf_shape<V: VoxelData>(
    content: VoxelContent,
    chunk_dim: u32,
    color_palette: &Vec<Albedo>,
    data_palette: &Vec<V>,
    node_bounds: &Cube,
    position: &V3c<u32>,
    target_content: PaletteIndexValues,
) -> (r: Result<Vec<ChunkData>, VoxelContent>)
    requires
        !(content is Internal),
        update_palettes_ok(chunk_dim, color_palette@, data_palette@, target_content),
        content.wf(chunk_dim as int),
        content.in_palettes(color_palette.len() as int, data_palette.len() as int),
        node_bounds.wf(),
        node_bounds.size % 4 == 0,
        node_bounds.contains_point(position.x as int, position.y as int, position.z as int),
    ensures
        r is Err == write_skipped(
            content,
            *node_bounds,
            chunk_dim as int,
            target_content,
            position.x as int,
            position.y as int,
            position.z as int,
        ),
        match r {
            Ok(leaf) => {
                &&& VoxelContent::Leaf(leaf).wf(chunk_dim as int)
                &&& VoxelContent::Leaf(leaf).in_palettes(
                    color_palette.len() as int,
                    data_palette.len() as int,
                )
                &&& same_voxels(VoxelContent::Leaf(leaf), content, *node_bounds, chunk_dim as int)
                &&& forall|s: int|
                    0 <= s < 64 ==> (#[trigger] leaf[s] == ChunkData::Solid(target_content))
                        == holds_solid(content, s, target_content)
                &&& content is Leaf ==> content == VoxelContent::Leaf(leaf)
            },
            Err(kept) => {
                &&& kept == kept_content(content)
                &&& !(kept is Internal)
                &&& kept.wf(chunk_dim as int)
                &&& kept.in_palettes(color_palette.len() as int, data_palette.len() as int)
                &&& same_voxels(kept, content, *node_bounds, chunk_dim as int)
                &&& content_voxel(
                    content,
                    *node_bounds,
                    chunk_dim as int,
                    position.x as int,
                    position.y as int,
                    position.z as int,
                ) == target_content
            },
        },
{
    let ghost dim = chunk_dim as int;
    match content {
        VoxelContent::Leaf(chunks) => Ok(chunks),
        VoxelContent::Nothing => {
            let leaf: Vec<ChunkData> = empty_leaf();
            proof {
                lemma_empty_leaf(leaf, *node_bounds, dim);
                assert forall|s: int| 0 <= s < 64 implies (#[trigger] leaf[s] == ChunkData::Solid(
                    target_content,
                )) == holds_solid(content, s, target_content) by {
                    assert(leaf[s] == ChunkData::Empty);
                }
            }
            Ok(leaf)
        },
        VoxelContent::Internal(_) => {
            let leaf: Vec<ChunkData> = empty_leaf();
            proof {
                lemma_empty_leaf(leaf, *node_bounds, dim);
                assert forall|s: int| 0 <= s < 64 implies (#[trigger] leaf[s] == ChunkData::Solid(
                    target_content,
                )) == holds_solid(content, s, target_content) by {
                    assert(leaf[s] == ChunkData::Empty);
                }
            }
            Ok(leaf)
        },
        VoxelContent::UniformLeaf(mat) => {
            let ghost given = mat;
            match uniform_matrix(mat, chunk_dim, color_palette, data_palette, target_content) {
                Err(kept) => Err(kept),
                Ok(matrix) => {
                    proof {
                        lemma_uniform_matrix_voxels(matrix, given, *node_bounds, dim);
                    }
                    let ghost uniform = VoxelContent::UniformLeaf(ChunkData::Parted(matrix));
                    match spread_matrix(
                        matrix,
                        chunk_dim,
                        color_palette,
                        data_palette,
                        node_bounds,
                        position,
                        target_content,
                    ) {
                        Err(kept) => {
                            assert(same_voxels(kept, content, *node_bounds, dim));
                            assert(content_voxel(
                                kept,
                                *node_bounds,
                                dim,
                                position.x as int,
                                position.y as int,
                                position.z as int,
                            ) == content_voxel(
                                content,
                                *node_bounds,
                                dim,
                                position.x as int,
                                position.y as int,
                                position.z as int,
                            ));
                            Err(kept)
                        },
                        Ok(leaf) => {
                            assert forall|x: int, y: int, z: int|
                                node_bounds.contains_point(
                                    x,
                                    y,
                                    z,
                                ) implies #[trigger] content_voxel(
                                VoxelContent::Leaf(leaf),
                                *node_bounds,
                                dim,
                                x,
                                y,
                                z,
                            ) == content_voxel(content, *node_bounds, dim, x, y, z) by {
                                assert(content_voxel(uniform, *node_bounds, dim, x, y, z)
                                    == content_voxel(content, *node_bounds, dim, x, y, z));
                            }
                            assert forall|s: int| 0 <= s < 64 implies (#[trigger] leaf[s]
                                == ChunkData::Solid(target_content)) == holds_solid(
                                content,
                                s,
                                target_content,
                            ) by {
                                assert(leaf[s] is Parted);
                            }
                            Ok(leaf)
                        },
                    }
                },
            }
        },
    }
}

impl<T: VoxelData> Contree<T> {
    /// Writes into the content of a node that is not divided into children. A node that
    /// holds nothing becomes a leaf of empty bricks first; a uniform leaf whose brick cannot
    /// take the update becomes a matrix, and then a leaf whose bricks show the matrix at four
    /// times its resolution; in a leaf the brick of the target sectant takes the update.
    /// Where the content holds the value already, it stays as it is.
    /// Returns the new content and the number of cells updated along the x axis.
    pub fn update_leaf_content(
        content: VoxelContent,
        overwrite_if_empty: bool,
        chunk_dim: u32,
        color_palette: &Vec<Albedo>,
        data_palette: &Vec<T>,
        node_bounds: &Cube,
        target_bounds: &Cube,
        target_child_sectant: usize,
        position: &V3c<u32>,
        size: u32,
        target_content: PaletteIndexValues,
    ) -> (r: (VoxelContent, usize))
        requires
            !(content is Internal),
            update_palettes_ok(chunk_dim, color_palette@, data_palette@, target_content),
            content.wf(chunk_dim as int),
            content.in_palettes(color_palette.len() as int, data_palette.len() as int),
            node_bounds.wf(),
            node_bounds.size % 4 == 0,
            node_bounds.size >= 4 * chunk_dim,
            target_child_sectant < 64,
            *target_bounds == node_bounds.child_cube(target_child_sectant as int),
            target_bounds.contains_point(position.x as int, position.y as int, position.z as int),
            node_bounds.contains_point(position.x as int, position.y as int, position.z as int),
        ensures
            !(r.0 is Internal),
            r.0.wf(chunk_dim as int),
            r.0.in_palettes(color_palette.len() as int, data_palette.len() as int),
            leaf_updated(
                r.0,
                r.1 as int,
                content,
                *node_bounds,
                target_child_sectant as int,
                chunk_dim as int,
                overwrite_if_empty,
                target_content,
                position.x as int,
                position.y as int,
                position.z as int,
                size as int,
            ),
            voxels_kept_or_written(
                r.0,
                content,
                *node_bounds,
                chunk_dim as int,
                overwrite_if_empty,
                target_content,
            ),
            (size == 1 && node_bounds.size == 4 * chunk_dim && target_child_sectant
                == node_bounds.sectant_of(
                position.x as int,
                position.y as int,
                position.z as int,
            )) ==> single_voxel_written(
                r.0,
                content,
                *node_bounds,
                chunk_dim as int,
                overwrite_if_empty,
                target_content,
                position.x as int,
                position.y as int,
                position.z as int,
            ),
            (size >= 1 && overwrite_if_empty && target_child_sectant == node_bounds.sectant_of(
                position.x as int,
                position.y as int,
                position.z as int,
            )) ==> content_voxel(
                r.0,
                *node_bounds,
                chunk_dim as int,
                position.x as int,
                position.y as int,
                position.z as int,
            ) == target_content,
    {
        let ghost dim = chunk_dim as int;
        let ghost px = position.x as int;
        let ghost py = position.y as int;
        let ghost pz = position.z as int;
        proof {
            lemma_written_same(overwrite_if_empty, target_content);
        }
        let leaf: Vec<ChunkData> = match leaf_shape(
            content,
            chunk_dim,
            color_palette,
            data_palette,
            node_bounds,
            position,
            target_content,
        ) {
            Err(kept) => {
                return (kept, 0);
            },
            Ok(leaf) => leaf,
        };
        let holds: bool = match &leaf[target_child_sectant] {
            ChunkData::Solid(voxel) => *voxel == target_content,
            _ => false,
        };
        if holds {
            // the brick holds the value already: nothing is written
            proof {
                assert(holds_solid(content, target_child_sectant as int, target_content));
                assert(content == VoxelContent::Leaf(leaf));
                lemma_child_cube_contains(*node_bounds, px, py, pz);
            }
            return (VoxelContent::Leaf(leaf), 0);
        }
        let mut leaf = leaf;
        let ghost bricks_before = leaf;
        assert(leaf[target_child_sectant as int].wf(dim));
        assert(leaf[target_child_sectant as int].in_palettes(
            color_palette.len() as int,
            data_palette.len() as int,
        ));
        let update_size: usize = update_brick(
            &mut leaf[target_child_sectant],
            overwrite_if_empty,
            chunk_dim,
            color_palette,
            data_palette,
            target_bounds,
            position,
            size,
            target_content,
        );
        proof {
            assert forall|s: int| 0 <= s < 64 implies (#[trigger] leaf[s]).wf(dim)
                && leaf[s].in_palettes(color_palette.len() as int, data_palette.len() as int) by {
                if s != target_child_sectant {
                    assert(leaf[s] == bricks_before[s]);
                    assert(bricks_before[s].wf(dim));
                    assert(bricks_before[s].in_palettes(
                        color_palette.len() as int,
                        data_palette.len() as int,
                    ));
                }
            }
            lemma_leaf_box_written(
                leaf,
                bricks_before,
                *node_bounds,
                dim,
                target_child_sectant as int,
                overwrite_if_empty,
                target_content,
                px,
                py,
                pz,
                size as int,
            );
            assert forall|x: int, y: int, z: int|
                node_bounds.contains_point(x, y, z) implies #[trigger] content_voxel(
                VoxelContent::Leaf(leaf),
                *node_bounds,
                dim,
                x,
                y,
                z,
            ) == (if in_written_box(*target_bounds, dim, px, py, pz, size as int, x, y, z) {
                written_value(
                    overwrite_if_empty,
                    content_voxel(content, *node_bounds, dim, x, y, z),
                    target_content,
                )
            } else {
                content_voxel(content, *node_bounds, dim, x, y, z)
            }) by {
                assert(content_voxel(
                    VoxelContent::Leaf(bricks_before),
                    *node_bounds,
                    dim,
                    x,
                    y,
                    z,
                ) == content_voxel(content, *node_bounds, dim, x, y, z));
            }
            lemma_leaf_kept_or_written(
                leaf,
                bricks_before,
                *node_bounds,
                dim,
                target_child_sectant as int,
                overwrite_if_empty,
                target_content,
                matrix_coordinate(px - target_bounds.min_position.x, dim,
                    target_bounds.size as int),
                matrix_coordinate(py - target_bounds.min_position.y, dim,
                    target_bounds.size as int),
                matrix_coordinate(pz - target_bounds.min_position.z, dim,
                    target_bounds.size as int),
                size as int,
            );
            assert forall|x: int, y: int, z: int|
                node_bounds.contains_point(x, y, z) implies (#[trigger] content_voxel(
                VoxelContent::Leaf(leaf),
                *node_bounds,
                dim,
                x,
                y,
                z,
            ) == content_voxel(content, *node_bounds, dim, x, y, z) || content_voxel(
                VoxelContent::Leaf(leaf),
                *node_bounds,
                dim,
                x,
                y,
                z,
            ) == written_value(
                overwrite_if_empty,
                content_voxel(content, *node_bounds, dim, x, y, z),
                target_content,
            )) by {
                assert(content_voxel(
                    VoxelContent::Leaf(bricks_before),
                    *node_bounds,
                    dim,
                    x,
                    y,
                    z,
                ) == content_voxel(content, *node_bounds, dim, x, y, z));
            }
            if target_child_sectant == node_bounds.sectant_of(px, py, pz) {
                if size == 1 && node_bounds.size == 4 * chunk_dim {
                    lemma_leaf_single(
                        leaf,
                        bricks_before,
                        *node_bounds,
                        dim,
                        target_child_sectant as int,
                        overwrite_if_empty,
                        target_content,
                        px,
                        py,
                        pz,
                    );
                    assert forall|x: int, y: int, z: int|
                        node_bounds.contains_point(x, y, z) implies #[trigger] content_voxel(
                        VoxelContent::Leaf(leaf),
                        *node_bounds,
                        dim,
                        x,
                        y,
                        z,
                    ) == (if x == px && y == py && z == pz {
                        written_value(
                            overwrite_if_empty,
                            content_voxel(content, *node_bounds, dim, x, y, z),
                            target_content,
                        )
                    } else {
                        content_voxel(content, *node_bounds, dim, x, y, z)
                    }) by {
                        assert(content_voxel(
                            VoxelContent::Leaf(bricks_before),
                            *node_bounds,
                            dim,
                            x,
                            y,
                            z,
                        ) == content_voxel(content, *node_bounds, dim, x, y, z));
                    }
                }
                if size >= 1 && overwrite_if_empty {
                    lemma_position_written(
                        leaf[target_child_sectant as int],
                        bricks_before[target_child_sectant as int],
                        *target_bounds,
                        dim,
                        target_content,
                        px,
                        py,
                        pz,
                        size as int,
                    );
                }
            }
        }
        (VoxelContent::Leaf(leaf), update_size)
    }
}

/// A brick that was overwritten from the cell of a position on holds the written value at
/// the position.
pub proof fn lemma_position_written(
    after: ChunkData,
    before: ChunkData,
    bounds: Cube,
    dim: int,
    data: PaletteIndexValues,
    px: int,
    py: int,
    pz: int,
    size: int,
)
    requires
        0 < dim,
        size >= 1,
        bounds.contains_point(px, py, pz),
        brick_written(
            after,
            before,
            true,
            data,
            matrix_coordinate(px - bounds.min_position.x, dim, bounds.size as int),
            matrix_coordinate(py - bounds.min_position.y, dim, bounds.size as int),
            matrix_coordinate(pz - bounds.min_position.z, dim, bounds.size as int),
            size,
            dim,
        ),
    ensures
        brick_voxel(after, bounds, dim, px, py, pz) == data,
{
    let mx = matrix_coordinate(px - bounds.min_position.x, dim, bounds.size as int);
    let my = matrix_coordinate(py - bounds.min_position.y, dim, bounds.size as int);
    let mz = matrix_coordinate(pz - bounds.min_position.z, dim, bounds.size as int);
    lemma_matrix_coordinate_bound(px - bounds.min_position.x, dim, bounds.size as int);
    lemma_matrix_coordinate_bound(py - bounds.min_position.y, dim, bounds.size as int);
    lemma_matrix_coordinate_bound(pz - bounds.min_position.z, dim, bounds.size as int);
    assert(after.value_at(flat_index(mx, my, mz, dim)) == data);
}

/// The bricks of a leaf that shows what the given leaf or uniform leaf shows: the bricks
/// of a leaf as they are; for a uniform leaf, sixty-four bricks that show its brick at four
/// times the resolution.
pub fn leaf_bricks_of(content: VoxelContent, chunk_dim: u32, node_bounds: Ghost<Cube>,
    colors: Ghost<
    int,
>, more: Ghost<int>) -> (r: Vec<ChunkData>)
    requires
        content.is_leaf_kind(),
        usable_dimension(chunk_dim as int),
        content.wf(chunk_dim as int),
        content.in_palettes(colors@, more@),
        node_bounds@.wf(),
        node_bounds@.size % 4 == 0,
    ensures
        VoxelContent::Leaf(r).wf(chunk_dim as int),
        VoxelContent::Leaf(r).in_palettes(colors@, more@),
        same_voxels(VoxelContent::Leaf(r), content, node_bounds@, chunk_dim as int),
{
    let ghost dim = chunk_dim as int;
    match content {
        VoxelContent::Leaf(chunks) => chunks,
        VoxelContent::UniformLeaf(ChunkData::Solid(voxel)) => {
            let mut r: Vec<ChunkData> = Vec::new();
            let mut s: usize = 0;
            while s < 64
                invariant
                    s <= 64,
                    r.len() == s,
                    forall|j: int| 0 <= j < s ==> #[trigger] r[j] == ChunkData::Solid(voxel),
                decreases 64 - s,
            {
                r.push(ChunkData::Solid(voxel));
                s += 1;
            }
            proof {
                assert forall|x: int, y: int, z: int|
                    node_bounds@.contains_point(x, y, z) implies #[trigger] content_voxel(
                    VoxelContent::Leaf(r),
                    node_bounds@,
                    dim,
                    x,
                    y,
                    z,
                ) == content_voxel(content, node_bounds@, dim, x, y, z) by {
                    lemma_child_cube_contains(node_bounds@, x, y, z);
                    assert(r[node_bounds@.sectant_of(x, y, z)] == ChunkData::Solid(voxel));
                }
            }
            r
        },
        VoxelContent::UniformLeaf(ChunkData::Parted(matrix)) => {
            let ghost source = matrix;
            let child_chunks: Vec<Vec<PaletteIndexValues>> = Contree::<u32>::dilute_chunk_data(
                matrix,
                chunk_dim,
            );
            let ghost chunks = child_chunks;
            let spread: Vec<ChunkData> = leaf_of_chunks(child_chunks);
            proof {
                lemma_spread_same_voxels(spread, chunks, source, node_bounds@, dim);
                assert forall|s: int| 0 <= s < 64 implies (#[trigger] spread[s]).wf(dim)
                    && spread[s].in_palettes(colors@, more@) by {
                    assert(spread[s] == ChunkData::Parted(chunks[s]));
                    assert(chunks[s].len() == source.len());
                    lemma_spread_in_palettes(chunks[s], source, s, dim, colors@, more@);
                }
            }
            spread
        },
        _ => {
            let leaf: Vec<ChunkData> = empty_leaf();
            proof {
                lemma_empty_leaf(leaf, node_bounds@, dim);
                assert forall|x: int, y: int, z: int|
                    node_bounds@.contains_point(x, y, z) implies #[trigger] content_voxel(
                    VoxelContent::Leaf(leaf),
                    node_bounds@,
                    dim,
                    x,
                    y,
                    z,
                ) == content_voxel(content, node_bounds@, dim, x, y, z) by {
                    assert(content_voxel(VoxelContent::Nothing, node_bounds@, dim, x, y, z)
                        == EMPTY_MARKER);
                }
            }
            leaf
        },
    }
}

} // verus!
