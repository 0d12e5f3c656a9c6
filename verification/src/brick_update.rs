//! Writing into bricks, and spreading one brick over the sixty-four sectants of a node.
use vstd::prelude::*;
use crate::node::{brick_volume, filled_values};
use crate::palette::{
    color_index_of, data_index_of, has_color, has_data, index_in_palettes, lemma_index_halves,
    lemma_packed_halves, overwritten_by,
};
use crate::spatial::{
    flat_index, flat_projection, lemma_flat_index_bound, lemma_flat_index_injective,
    matrix_coordinate, matrix_index_for, min_int, octant_in_sectants, sectant_x, sectant_y,
    sectant_z, Cube, V3c,
};
use crate::tree::Contree;
use crate::types::{PaletteIndexValues, VoxelContent, VoxelData};

verus! {

/// The value of a voxel after `data` was written to it: `data` itself where everything is
/// overwritten, else the old value with the halves that `data` holds written over it.
pub open spec fn written_value(
    overwrite: bool,
    previous: PaletteIndexValues,
    data: PaletteIndexValues,
) -> PaletteIndexValues {
    if overwrite {
        data
    } else {
        overwritten_by(previous, data) as u32
    }
}

/// The cell lies in the part of the matrix that an update of `size` cells starting at
/// `(mx, my, mz)` reaches.
pub open spec fn in_update_box(
    mx: int,
    my: int,
    mz: int,
    size: int,
    dim: int,
    x: int,
    y: int,
    z: int,
) -> bool {
    &&& mx <= x < min_int(mx + size, dim)
    &&& my <= y < min_int(my + size, dim)
    &&& mz <= z < min_int(mz + size, dim)
}

/// The cell `(cx, cy, cz)` comes before the cell `(x, y, z)` in the order of the update.
pub open spec fn cell_before(cx: int, cy: int, cz: int, x: int, y: int, z: int) -> bool {
    cx < x || (cx == x && (cy < y || (cy == y && cz < z)))
}

/// The matrix after an update: the cells of the box hold the written value, all others
/// what they held.
pub open spec fn chunk_updated(
    after: Seq<PaletteIndexValues>,
    before: Seq<PaletteIndexValues>,
    overwrite: bool,
    data: PaletteIndexValues,
    mx: int,
    my: int,
    mz: int,
    size: int,
    dim: int,
) -> bool {
    &&& after.len() == before.len()
    &&& forall|x: int, y: int, z: int|
        0 <= x < dim && 0 <= y < dim && 0 <= z < dim ==> after[#[trigger] flat_index(x, y, z, dim)]
            == (if in_update_box(mx, my, mz, size, dim, x, y, z) {
            written_value(overwrite, before[flat_index(x, y, z, dim)], data)
        } else {
            before[flat_index(x, y, z, dim)]
        })
}

/// A value written over a value that refers to palette entries refers to palette entries.
pub proof fn lemma_written_in_palettes(
    overwrite: bool,
    previous: PaletteIndexValues,
    data: PaletteIndexValues,
    colors: int,
    more: int,
)
    requires
        index_in_palettes(previous, colors, more),
        index_in_palettes(data, colors, more),
    ensures
        index_in_palettes(written_value(overwrite, previous, data), colors, more),
        0 <= overwritten_by(previous, data) <= u32::MAX,
        color_index_of(overwritten_by(previous, data) as u32) == (if has_color(data) {
            color_index_of(data)
        } else {
            color_index_of(previous)
        }),
        data_index_of(overwritten_by(previous, data) as u32) == (if has_data(data) {
            data_index_of(data)
        } else {
            data_index_of(previous)
        }),
{
    lemma_index_halves(previous);
    lemma_index_halves(data);
    let c = if has_color(data) {
        color_index_of(data)
    } else {
        color_index_of(previous)
    };
    let d = if has_data(data) {
        data_index_of(data)
    } else {
        data_index_of(previous)
    };
    lemma_packed_halves(c, d);
}

impl<T: VoxelData> Contree<T> {
    /// Writes `data` into the cells of the brick that an update of `size` cells, starting at
    /// the cell of the position, reaches; the update is cut off at the faces of the brick.
    /// With `overwrite_if_empty` the cells take `data` as it is; without it only the halves
    /// that `data` holds are written. Returns the number of cells updated along the x axis.
    pub fn update_chunk(
        overwrite_if_empty: bool,
        chunk: &mut Vec<PaletteIndexValues>,
        chunk_bounds: &Cube,
        chunk_dim: u32,
        position: V3c<u32>,
        size: u32,
        data: &PaletteIndexValues,
    ) -> (update_size: usize)
        requires
            chunk_bounds.contains_point(position.x as int, position.y as int, position.z as int),
            chunk_dim > 0,
            old(chunk).len() == brick_volume(chunk_dim as int),
        ensures
            chunk_updated(
                final(chunk)@,
                old(chunk)@,
                overwrite_if_empty,
                *data,
                matrix_coordinate(
                    position.x - chunk_bounds.min_position.x,
                    chunk_dim as int,
                    chunk_bounds.size as int,
                ),
                matrix_coordinate(
                    position.y - chunk_bounds.min_position.y,
                    chunk_dim as int,
                    chunk_bounds.size as int,
                ),
                matrix_coordinate(
                    position.z - chunk_bounds.min_position.z,
                    chunk_dim as int,
                    chunk_bounds.size as int,
                ),
                size as int,
                chunk_dim as int,
            ),
            update_size == min_int(
                chunk_dim - matrix_coordinate(
                    position.x - chunk_bounds.min_position.x,
                    chunk_dim as int,
                    chunk_bounds.size as int,
                ),
                size as int,
            ),
    {
        let mat_index: V3c<usize> = matrix_index_for(chunk_bounds, &position, chunk_dim);
        let ghost dim = chunk_dim as int;
        let ghost mx = mat_index.x as int;
        let ghost my = mat_index.y as int;
        let ghost mz = mat_index.z as int;
        let ghost before = chunk@;
        let dimension: usize = chunk_dim as usize;
        let room: usize = dimension - mat_index.x;
        let update_size: usize = if (size as u64) < (room as u64) {
            size as usize
        } else {
            room
        };
        let x_end: usize = Self::update_end(mat_index.x, size, chunk_dim);
        let y_end: usize = Self::update_end(mat_index.y, size, chunk_dim);
        let z_end: usize = Self::update_end(mat_index.z, size, chunk_dim);
        let mut x: usize = mat_index.x;
        while x < x_end
            invariant
                mx <= x,
                x_end <= dim,
                dim == chunk_dim,
                dimension == chunk_dim,
                mx == mat_index.x && my == mat_index.y && mz == mat_index.z,
                0 <= my < dim && 0 <= mz < dim,
                x_end == min_int(mx + size, dim),
                y_end == min_int(my + size, dim),
                z_end == min_int(mz + size, dim),
                chunk.len() == before.len(),
                before.len() == brick_volume(dim),
                forall|cx: int, cy: int, cz: int|
                    0 <= cx < dim && 0 <= cy < dim && 0 <= cz < dim ==> chunk[#[trigger] flat_index(
                        cx,
                        cy,
                        cz,
                        dim,
                    )] == (if in_update_box(mx, my, mz, size as int, dim, cx, cy, cz)
                        && cell_before(
                        cx,
                        cy,
                        cz,
                        x as int,
                        my,
                        mz,
                    ) {
                        written_value(overwrite_if_empty, before[flat_index(cx, cy, cz, dim)],
                            *data)
                    } else {
                        before[flat_index(cx, cy, cz, dim)]
                    }),
            decreases x_end - x,
        {
            let mut y: usize = mat_index.y;
            while y < y_end
                invariant
                    mx <= x < x_end,
                    my <= y,
                    x_end <= dim,
                    y_end <= dim,
                    dim == chunk_dim,
                    dimension == chunk_dim,
                    mx == mat_index.x && my == mat_index.y && mz == mat_index.z,
                    0 <= mz < dim,
                    x_end == min_int(mx + size, dim),
                    y_end == min_int(my + size, dim),
                    z_end == min_int(mz + size, dim),
                    chunk.len() == before.len(),
                    before.len() == brick_volume(dim),
                    forall|cx: int, cy: int, cz: int|
                        0 <= cx < dim && 0 <= cy < dim && 0 <= cz < dim
                            ==> chunk[#[trigger] flat_index(
                            cx,
                            cy,
                            cz,
                            dim,
                        )] == (if in_update_box(mx, my, mz, size as int, dim, cx, cy, cz)
                            && cell_before(cx, cy, cz, x as int, y as int, mz) {
                            written_value(
                                overwrite_if_empty,
                                before[flat_index(cx, cy, cz, dim)],
                                *data,
                            )
                        } else {
                            before[flat_index(cx, cy, cz, dim)]
                        }),
                decreases y_end - y,
            {
                let mut z: usize = mat_index.z;
                while z < z_end
                    invariant
                        mx <= x < x_end,
                        my <= y < y_end,
                        mz <= z,
                        x_end <= dim,
                        y_end <= dim,
                        z_end <= dim,
                        dim == chunk_dim,
                        dimension == chunk_dim,
                        mx == mat_index.x && my == mat_index.y && mz == mat_index.z,
                        x_end == min_int(mx + size, dim),
                        y_end == min_int(my + size, dim),
                        z_end == min_int(mz + size, dim),
                        chunk.len() == before.len(),
                        before.len() == brick_volume(dim),
                        forall|cx: int, cy: int, cz: int|
                            0 <= cx < dim && 0 <= cy < dim && 0 <= cz < dim
                                ==> chunk[#[trigger] flat_index(
                                cx,
                                cy,
                                cz,
                                dim,
                            )] == (if in_update_box(mx, my, mz, size as int, dim, cx, cy, cz)
                                && cell_before(cx, cy, cz, x as int, y as int, z as int) {
                                written_value(
                                    overwrite_if_empty,
                                    before[flat_index(cx, cy, cz, dim)],
                                    *data,
                                )
                            } else {
                                before[flat_index(cx, cy, cz, dim)]
                            }),
                    decreases z_end - z,
                {
                    proof {
                        lemma_flat_index_bound(x as int, y as int, z as int, dim);
                    }
                    let flat: usize = flat_projection(x, y, z, dimension);
                    let ghost previous = chunk@;
                    assert(previous[flat as int] == before[flat as int]);
                    if overwrite_if_empty {
                        chunk[flat] = *data;
                    } else {
                        proof {
                            lemma_index_halves(chunk[flat as int]);
                            lemma_index_halves(*data);
                        }
                        if VoxelContent::pix_color_is_some(data) {
                            chunk[flat] = VoxelContent::pix_overwrite_color(chunk[flat], data);
                        }
                        proof {
                            lemma_index_halves(chunk[flat as int]);
                            lemma_packed_halves(
                                color_index_of(*data),
                                data_index_of(previous[flat as int]),
                            );
                        }
                        if VoxelContent::pix_data_is_some(data) {
                            chunk[flat] = VoxelContent::pix_overwrite_data(chunk[flat], data);
                        }
                        proof {
                            lemma_packed_halves(
                                color_index_of(previous[flat as int]),
                                data_index_of(*data),
                            );
                            lemma_packed_halves(color_index_of(*data), data_index_of(*data));
                        }
                    }
                    assert(chunk[flat as int] == written_value(
                        overwrite_if_empty,
                        before[flat as int],
                        *data,
                    ));
                    proof {
                        assert forall|cx: int, cy: int, cz: int|
                            0 <= cx < dim && 0 <= cy < dim
                                && 0 <= cz < dim implies chunk[#[trigger] flat_index(
                                cx,
                                cy,
                                cz,
                                dim,
                            )] == (if in_update_box(mx, my, mz, size as int, dim, cx, cy, cz)
                                && cell_before(cx, cy, cz, x as int, y as int, z + 1) {
                                written_value(
                                    overwrite_if_empty,
                                    before[flat_index(cx, cy, cz, dim)],
                                    *data,
                                )
                            } else {
                                before[flat_index(cx, cy, cz, dim)]
                            }) by {
                            lemma_flat_index_injective(
                                cx,
                                cy,
                                cz,
                                x as int,
                                y as int,
                                z as int,
                                dim,
                            );
                            if cx == x && cy == y && cz == z {
                            } else {
                                assert(chunk[flat_index(cx, cy, cz, dim)] == previous[flat_index(
                                    cx,
                                    cy,
                                    cz,
                                    dim,
                                )]);
                            }
                        }
                    }
                    z += 1;
                }
                y += 1;
            }
            x += 1;
        }
        update_size
    }

    /// One past the last cell that an update of `size` cells starting at `start` reaches in a
    /// brick of edge `chunk_dim`.
    pub fn update_end(start: usize, size: u32, chunk_dim: u32) -> (end: usize)
        requires
            start < chunk_dim,
        ensures
            end == min_int(start + size, chunk_dim as int),
    {
        let reach: u64 = start as u64 + size as u64;
        if reach < chunk_dim as u64 {
            reach as usize
        } else {
            chunk_dim as usize
        }
    }
}

/// The flat index of the cell of a brick from which the cell `(x, y, z)` of the brick of the
/// given sectant is taken, when the brick is spread over the sectants of a node: the sectant
/// starts a quarter of the brick further for each of its coordinates, and four cells of the
/// new brick share one of the old.
pub open spec fn diluted_source(sectant: int, x: int, y: int, z: int, dim: int) -> int {
    flat_index(
        sectant_x(sectant) * dim / 4 + x / 4,
        sectant_y(sectant) * dim / 4 + y / 4,
        sectant_z(sectant) * dim / 4 + z / 4,
        dim,
    )
}

/// On one axis, the source of a cell lies inside the brick.
pub proof fn lemma_diluted_axis(s: int, x: int, dim: int)
    requires
        0 <= s < 4,
        0 <= x < dim,
        dim == 1 || dim == 2 || dim % 4 == 0,
    ensures
        0 <= s * dim / 4 + x / 4 < dim,
{
    if dim == 1 || dim == 2 {
    } else {
        let q = dim / 4;
        assert(s * dim / 4 == s * q) by (nonlinear_arith)
            requires
                dim == 4 * q,
        ;
        assert(s * q <= 3 * q) by (nonlinear_arith)
            requires
                0 <= s < 4,
                q >= 0,
        ;
        assert(x / 4 < q);
    }
}

/// The source of a cell lies inside the brick.
pub proof fn lemma_diluted_source_bound(sectant: int, x: int, y: int, z: int, dim: int)
    requires
        0 <= sectant < 64,
        0 <= x < dim,
        0 <= y < dim,
        0 <= z < dim,
        dim == 1 || dim == 2 || dim % 4 == 0,
    ensures
        0 <= diluted_source(sectant, x, y, z, dim) < brick_volume(dim),
{
    lemma_diluted_axis(sectant_x(sectant), x, dim);
    lemma_diluted_axis(sectant_y(sectant), y, dim);
    lemma_diluted_axis(sectant_z(sectant), z, dim);
    lemma_flat_index_bound(
        sectant_x(sectant) * dim / 4 + x / 4,
        sectant_y(sectant) * dim / 4 + y / 4,
        sectant_z(sectant) * dim / 4 + z / 4,
        dim,
    );
}

/// The cell at which the part of a brick starts that belongs to the sectant coordinate.
pub fn quarter_offset(coordinate: usize, chunk_dim: u32) -> (r: usize)
    requires
        coordinate < 4,
    ensures
        r == (coordinate as int) * (chunk_dim as int) / 4,
        r <= chunk_dim,
{
    assert(coordinate * chunk_dim <= 3 * chunk_dim) by (nonlinear_arith)
        requires
            coordinate < 4,
    ;
    (((coordinate as u64) * (chunk_dim as u64)) / 4) as usize
}

/// The brick of one sectant when the given brick is spread over the sectants of a node.
pub fn dilute_for_sectant(
    chunk_data: &Vec<PaletteIndexValues>,
    chunk_dim: u32,
    sectant: usize,
) -> (r: Vec<PaletteIndexValues>)
    requires
        sectant < 64,
        chunk_dim == 1 || chunk_dim == 2 || chunk_dim % 4 == 0,
        chunk_dim > 0,
        chunk_data.len() == brick_volume(chunk_dim as int),
    ensures
        r.len() == chunk_data.len(),
        forall|x: int, y: int, z: int|
            0 <= x < chunk_dim && 0 <= y < chunk_dim && 0 <= z < chunk_dim
                ==> r[#[trigger] flat_index(
                x,
                y,
                z,
                chunk_dim as int,
            )] == chunk_data[diluted_source(sectant as int, x, y, z, chunk_dim as int)],
{
    let dim: usize = chunk_dim as usize;
    let ghost d = chunk_dim as int;
    let offset_x: usize = quarter_offset(sectant % 4, chunk_dim);
    let offset_y: usize = quarter_offset((sectant / 4) % 4, chunk_dim);
    let offset_z: usize = quarter_offset(sectant / 16, chunk_dim);
    let mut r: Vec<PaletteIndexValues> = Vec::new();
    let mut i: usize = 0;
    while i < chunk_data.len()
        invariant
            i <= chunk_data.len(),
            r.len() == i,
            d == chunk_dim,
            dim == chunk_dim,
            d > 0,
            sectant < 64,
            d == 1 || d == 2 || d % 4 == 0,
            chunk_data.len() == brick_volume(d),
            offset_x == sectant_x(sectant as int) * d / 4,
            offset_y == sectant_y(sectant as int) * d / 4,
            offset_z == sectant_z(sectant as int) * d / 4,
            forall|j: int|
                0 <= j < i ==> #[trigger] r[j] == chunk_data[diluted_source(
                    sectant as int,
                    j % d,
                    (j / d) % d,
                    j / d / d,
                    d,
                )],
        decreases chunk_data.len() - i,
    {
        proof {
            crate::spatial::lemma_flat_index_of_coordinates(i as int, d);
            lemma_diluted_axis(sectant_x(sectant as int), (i as int) % d, d);
            lemma_diluted_axis(sectant_y(sectant as int), ((i as int) / d) % d, d);
            lemma_diluted_axis(sectant_z(sectant as int), (i as int) / d / d, d);
            lemma_flat_index_bound(
                sectant_x(sectant as int) * d / 4 + ((i as int) % d) / 4,
                sectant_y(sectant as int) * d / 4 + (((i as int) / d) % d) / 4,
                sectant_z(sectant as int) * d / 4 + ((i as int) / d / d) / 4,
                d,
            );
        }
        let x: usize = i % dim;
        let y: usize = (i / dim) % dim;
        let z: usize = i / dim / dim;
        let source: usize = flat_projection(
            offset_x + x / 4,
            offset_y + y / 4,
            offset_z + z / 4,
            dim,
        );
        r.push(chunk_data[source]);
        i += 1;
    }
    proof {
        assert forall|x: int, y: int, z: int|
            0 <= x < chunk_dim && 0 <= y < chunk_dim
                && 0 <= z < chunk_dim implies r[#[trigger] flat_index(
                x,
                y,
                z,
                d,
            )] == chunk_data[diluted_source(sectant as int, x, y, z, d)] by {
            lemma_flat_index_bound(x, y, z, d);
            crate::spatial::lemma_flat_index_coordinates(x, y, z, d);
        }
    }
    r
}

impl<T: VoxelData> Contree<T> {
    /// Spreads one brick over the sixty-four sectants of a node: returns one brick for each
    /// sectant, each of the edge length of the given brick, together showing the given brick
    /// at four times its resolution.
    pub fn dilute_chunk_data(chunk_data: Vec<PaletteIndexValues>, chunk_dim: u32) -> (r: Vec<
        Vec<PaletteIndexValues>,
    >)
        requires
            chunk_dim == 1 || chunk_dim == 2 || chunk_dim % 4 == 0,
            chunk_dim > 0,
            chunk_data.len() == brick_volume(chunk_dim as int),
        ensures
            r.len() == 64,
            forall|sectant: int|
                0 <= sectant < 64 ==> (#[trigger] r[sectant]).len() == chunk_data.len(),
            forall|sectant: int, x: int, y: int, z: int|
                0 <= sectant < 64 && 0 <= x < chunk_dim && 0 <= y < chunk_dim && 0 <= z
                    < chunk_dim ==> r[sectant][#[trigger] flat_index(x, y, z, chunk_dim as int)]
                    == chunk_data[#[trigger] diluted_source(sectant, x, y, z, chunk_dim as int)],
    {
        let mut r: Vec<Vec<PaletteIndexValues>> = Vec::new();
        let mut sectant: usize = 0;
        while sectant < 64
            invariant
                sectant <= 64,
                r.len() == sectant,
                chunk_dim == 1 || chunk_dim == 2 || chunk_dim % 4 == 0,
                chunk_dim > 0,
                chunk_data.len() == brick_volume(chunk_dim as int),
                forall|s: int| 0 <= s < sectant ==> (#[trigger] r[s]).len() == chunk_data.len(),
                forall|s: int, x: int, y: int, z: int|
                    0 <= s < sectant && 0 <= x < chunk_dim && 0 <= y < chunk_dim && 0 <= z
                        < chunk_dim ==> r[s][#[trigger] flat_index(x, y, z, chunk_dim as int)]
                        == chunk_data[#[trigger] diluted_source(s, x, y, z, chunk_dim as int)],
            decreases 64 - sectant,
        {
            let brick: Vec<PaletteIndexValues> = dilute_for_sectant(
                &chunk_data,
                chunk_dim,
                sectant,
            );
            r.push(brick);
            sectant += 1;
        }
        r
    }
}

/// On one axis: the cell of a brick that holds a point is the source of the cell that holds
/// the point in the brick of the point's sectant.
pub proof fn lemma_diluted_axis_maps(offset: int, size: int, dim: int)
    requires
        0 <= offset < size,
        size % 4 == 0,
        dim == 1 || dim == 2 || dim % 4 == 0,
        dim > 0,
    ensures
        matrix_coordinate(offset, dim, size) == (offset * 4 / size) * dim / 4 + matrix_coordinate(
            offset - (offset * 4 / size) * (size / 4),
            dim,
            size / 4,
        ) / 4,
        0 <= offset - (offset * 4 / size) * (size / 4) < size / 4,
        0 <= offset * 4 / size < 4,
{
    let q = size / 4;
    crate::spatial::lemma_axis_in_child(offset, size);
    let sx = offset * 4 / size;
    let r = offset - sx * q;
    assert(size == 4 * q);
    if dim == 1 {
        assert(offset * 1 / size == 0) by (nonlinear_arith)
            requires
                0 <= offset < size,
        ;
        assert(r * 1 / q == 0) by (nonlinear_arith)
            requires
                0 <= r < q,
        ;
    } else if dim == 2 {
        assert(r * 2 / q < 2) by (nonlinear_arith)
            requires
                0 <= r < q,
        ;
        assert(0 <= r * 2 / q) by (nonlinear_arith)
            requires
                0 <= r < q,
        ;
        assert(offset * 2 / size == sx / 2) by (nonlinear_arith)
            requires
                size == 4 * q,
                sx * q <= offset < sx * q + q,
                0 <= sx < 4,
                q > 0,
        ;
        assert(sx * 2 / 4 == sx / 2);
    } else {
        let e = dim / 4;
        assert(dim == 4 * e);
        let t = r * e;
        let k = t / q;
        assert(0 <= t && t == k * q + t % q && 0 <= t % q < q) by (nonlinear_arith)
            requires
                t == r * e,
                0 <= r,
                0 < e,
                q > 0,
                k == t / q,
        ;
        assert(offset * dim == (sx * e + k) * size + 4 * (t % q)) by (nonlinear_arith)
            requires
                offset == sx * q + r,
                dim == 4 * e,
                size == 4 * q,
                t == r * e,
                t == k * q + t % q,
        ;
        vstd::arithmetic::div_mod::lemma_fundamental_div_mod_converse(
            offset * dim,
            size,
            sx * e + k,
            4 * (t % q),
        );
        assert(sx * dim / 4 == sx * e) by (nonlinear_arith)
            requires
                dim == 4 * e,
        ;
        assert(r * dim == (4 * k + (4 * (t % q)) / q) * q + (4 * (t % q)) % q && 0 <= (4 * (t
            % q)) / q < 4) by (nonlinear_arith)
            requires
                dim == 4 * e,
                t == r * e,
                t == k * q + t % q,
                0 <= t % q < q,
        ;
        assert(0 <= (4 * (t % q)) % q < q) by (nonlinear_arith)
            requires
                q > 0,
        ;
        vstd::arithmetic::div_mod::lemma_fundamental_div_mod_converse(
            r * dim,
            q,
            4 * k + (4 * (t % q)) / q,
            (4 * (t % q)) % q,
        );
        assert((4 * k + (4 * (t % q)) / q) / 4 == k);
    }
}

/// On one axis: the source of the cell that holds a point in the brick of its sectant is
/// the cell that holds the point in the brick of the node.
pub proof fn lemma_axis_source(min: int, size: int, dim: int, p: int, sc: int)
    requires
        min <= p < min + size,
        size % 4 == 0,
        dim == 1 || dim == 2 || dim % 4 == 0,
        dim > 0,
        sc == crate::spatial::sectant_coordinate(p - min, size),
    ensures
        sc * dim / 4 + matrix_coordinate(p - (min + sc * (size / 4)), dim, size / 4) / 4
            == matrix_coordinate(p - min, dim, size),
        0 <= matrix_coordinate(p - (min + sc * (size / 4)), dim, size / 4) < dim,
        0 <= p - (min + sc * (size / 4)) < size / 4,
{
    lemma_diluted_axis_maps(p - min, size, dim);
    crate::spatial::lemma_matrix_coordinate_bound(p - (min + sc * (size / 4)), dim, size / 4);
}

/// A brick spread over the sectants of a node shows at every position what the brick
/// showed there.
pub proof fn lemma_diluted_voxel(
    bounds: Cube,
    dim: int,
    x: int,
    y: int,
    z: int,
    source: Vec<PaletteIndexValues>,
    diluted: Vec<PaletteIndexValues>,
)
    requires
        bounds.wf(),
        bounds.size % 4 == 0,
        bounds.contains_point(x, y, z),
        dim == 1 || dim == 2 || dim % 4 == 0,
        dim > 0,
        forall|cx: int, cy: int, cz: int|
            0 <= cx < dim && 0 <= cy < dim && 0 <= cz < dim ==> diluted[#[trigger] flat_index(
                cx,
                cy,
                cz,
                dim,
            )] == source[diluted_source(bounds.sectant_of(x, y, z), cx, cy, cz, dim)],
    ensures
        crate::tree::brick_voxel(
            crate::types::ChunkData::Parted(diluted),
            bounds.child_cube(bounds.sectant_of(x, y, z)),
            dim,
            x,
            y,
            z,
        ) == crate::tree::brick_voxel(crate::types::ChunkData::Parted(source), bounds, dim, x, y,
            z),
{
    let size = bounds.size as int;
    let q = size / 4;
    let s = bounds.sectant_of(x, y, z);
    let child = bounds.child_cube(s);
    crate::spatial::lemma_child_cube_contains(bounds, x, y, z);
    let sx = sectant_x(s);
    let sy = sectant_y(s);
    let sz = sectant_z(s);
    lemma_axis_source(bounds.min_position.x as int, size, dim, x, sx);
    lemma_axis_source(bounds.min_position.y as int, size, dim, y, sy);
    lemma_axis_source(bounds.min_position.z as int, size, dim, z, sz);
    assert(child.min_position.x == bounds.min_position.x + sx * q);
    assert(child.min_position.y == bounds.min_position.y + sy * q);
    assert(child.min_position.z == bounds.min_position.z + sz * q);
    assert(child.size == q);
    let cx = matrix_coordinate(x - (bounds.min_position.x + sx * q), dim, q);
    let cy = matrix_coordinate(y - (bounds.min_position.y + sy * q), dim, q);
    let cz = matrix_coordinate(z - (bounds.min_position.z + sz * q), dim, q);
    assert(diluted[flat_index(cx, cy, cz, dim)] == source[diluted_source(s, cx, cy, cz, dim)]);
}

} // verus!
