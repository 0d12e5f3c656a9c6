//! Updates of whole sectants: an update that starts at a corner of a sectant of the node
//! that takes it, and whose size is a multiple of the edge of a sectant, fills a cube.
use vstd::prelude::*;
use vstd::arithmetic::div_mod::{
    lemma_div_denominator, lemma_fundamental_div_mod, lemma_fundamental_div_mod_converse,
};
use crate::brick_update::{in_update_box, written_value};
use crate::leaf::{box_written, holds_solid, in_written_box, leaf_updated, write_skipped};
use crate::semantics::lemma_sectant_of_child_point;
use crate::spatial::{
    clipped_size, lemma_child_cube_contains, lemma_matrix_coordinate_bound, matrix_coordinate,
    min_int, Cube,
};
use crate::tree::{brick_voxel, content_voxel, lemma_node_size, lemma_power_of_two_positive,
    Contree};
use crate::types::{ChunkData, PaletteIndexValues, VoxelContent, VoxelData};
use crate::write::{max_int, reached, round_update, round_written, rounds_of, sectants_written};

verus! {

/// The position lies in the cube, at a corner of one of its sectants.
pub open spec fn at_sectant_corner(cube: Cube, x: int, y: int, z: int) -> bool {
    &&& cube.contains_point(x, y, z)
    &&& (x - cube.min_position.x) % (cube.size as int / 4) == 0
    &&& (y - cube.min_position.y) % (cube.size as int / 4) == 0
    &&& (z - cube.min_position.z) % (cube.size as int / 4) == 0
}

/// The cube of the sectant that holds a corner of a sectant starts at that corner.
pub proof fn lemma_corner_cube(cube: Cube, x: int, y: int, z: int)
    requires
        cube.wf(),
        cube.size % 4 == 0,
        cube.size >= 4,
        at_sectant_corner(cube, x, y, z),
    ensures
        0 <= cube.sectant_of(x, y, z) < 64,
        cube.child_cube(cube.sectant_of(x, y, z)).min_position.x == x,
        cube.child_cube(cube.sectant_of(x, y, z)).min_position.y == y,
        cube.child_cube(cube.sectant_of(x, y, z)).min_position.z == z,
        cube.child_cube(cube.sectant_of(x, y, z)).size == cube.size / 4,
{
    lemma_child_cube_contains(cube, x, y, z);
    let t = cube.size as int / 4;
    let s = cube.sectant_of(x, y, z);
    let child = cube.child_cube(s);
    let sx = crate::spatial::sectant_x(s);
    let sy = crate::spatial::sectant_y(s);
    let sz = crate::spatial::sectant_z(s);
    assert(0 <= sx < 4 && 0 <= sy < 4 && 0 <= sz < 4);
    assert(sx * t + t <= 4 * t && sy * t + t <= 4 * t && sz * t + t <= 4 * t && 0 <= sx * t && 0
        <= sy * t && 0 <= sz * t) by (nonlinear_arith)
        requires
            0 <= sx < 4,
            0 <= sy < 4,
            0 <= sz < 4,
            t >= 1,
    ;
    assert(child.min_position.x == cube.min_position.x + sx * t);
    assert(child.min_position.y == cube.min_position.y + sy * t);
    assert(child.min_position.z == cube.min_position.z + sz * t);
    lemma_multiple_between(x - cube.min_position.x, sx, t);
    lemma_multiple_between(y - cube.min_position.y, sy, t);
    lemma_multiple_between(z - cube.min_position.z, sz, t);
}

/// A multiple of `t` from `s * t` up to, not including, `s * t + t` is `s * t`.
pub proof fn lemma_multiple_between(offset: int, s: int, t: int)
    requires
        t >= 1,
        offset % t == 0,
        s * t <= offset < s * t + t,
    ensures
        offset == s * t,
{
    lemma_fundamental_div_mod(offset, t);
    let a = offset / t;
    assert(offset == t * a);
    assert(a == s) by (nonlinear_arith)
        requires
            offset == t * a,
            s * t <= offset < s * t + t,
            t >= 1,
    ;
    assert(offset == s * t) by (nonlinear_arith)
        requires
            offset == t * a,
            a == s,
    ;
}

/// The coordinates of a round among `count` sectants on each axis.
pub proof fn lemma_round_coordinates(round: int, count: int)
    requires
        count >= 1,
        0 <= round < count * count * count,
    ensures
        0 <= round / (count * count) < count,
        0 <= (round / count) % count < count,
        0 <= round % count < count,
{
    lemma_div_denominator(round, count, count);
    lemma_fundamental_div_mod(round, count);
    lemma_fundamental_div_mod(round / count, count);
    let low = round % count;
    let rest = round / count;
    assert(0 <= low < count);
    assert(0 <= rest % count < count);
    assert(0 <= rest && rest < count * count) by (nonlinear_arith)
        requires
            round == count * rest + low,
            0 <= low < count,
            0 <= round < count * count * count,
            count >= 1,
    ;
    let high = rest / count;
    assert(0 <= high < count) by (nonlinear_arith)
        requires
            rest == count * high + rest % count,
            0 <= rest % count < count,
            0 <= rest < count * count,
            count >= 1,
    ;
}

/// The round with the given coordinates among `count` sectants on each axis.
pub proof fn lemma_round_of_coordinates(x: int, y: int, z: int, count: int)
    requires
        count >= 1,
        0 <= x < count,
        0 <= y < count,
        0 <= z < count,
    ensures
        0 <= x * count * count + y * count + z < count * count * count,
        (x * count * count + y * count + z) / (count * count) == x,
        ((x * count * count + y * count + z) / count) % count == y,
        (x * count * count + y * count + z) % count == z,
{
    let round = x * count * count + y * count + z;
    let rest = x * count + y;
    assert(round == rest * count + z) by (nonlinear_arith)
        requires
            round == x * count * count + y * count + z,
            rest == x * count + y,
    ;
    assert(0 <= rest && 0 <= round && round < count * count * count) by (nonlinear_arith)
        requires
            round == rest * count + z,
            rest == x * count + y,
            0 <= x < count,
            0 <= y < count,
            0 <= z < count,
            count >= 1,
    ;
    lemma_fundamental_div_mod_converse(round, count, rest, z);
    lemma_fundamental_div_mod_converse(rest, count, x, y);
    lemma_div_denominator(round, count, count);
}

/// An update of whole sectants: it starts at a corner of a sectant of the cube, and its size
/// is a multiple of the edge of a sectant.
pub open spec fn whole_sectants(cube: Cube, px: int, py: int, pz: int, size: int) -> bool {
    &&& cube.wf()
    &&& cube.size % 4 == 0
    &&& cube.size >= 4
    &&& at_sectant_corner(cube, px, py, pz)
    &&& size >= 1
    &&& size % (cube.size as int / 4) == 0
}

/// The number of sectants that the update reaches along each axis.
pub open spec fn sectants_reached(cube: Cube, px: int, py: int, pz: int, size: int) -> int {
    reached(clipped_size(cube, px, py, pz, size), cube.size as int / 4)
}

/// The corner at which the sectant of the given round starts.
pub open spec fn round_corner(cube: Cube, px: int, py: int, pz: int, size: int, round: int) -> (
    int,
    int,
    int,
) {
    let t = cube.size as int / 4;
    let count = sectants_reached(cube, px, py, pz, size);
    (
        px + t * (round / (count * count)),
        py + t * ((round / count) % count),
        pz + t * (round % count),
    )
}

/// The room between an aligned offset and the end of the cube is a multiple of the edge of a
/// sectant, and one edge at least.
pub proof fn lemma_room(offset: int, t: int)
    requires
        t >= 1,
        0 <= offset < 4 * t,
        offset % t == 0,
    ensures
        (4 * t - offset) % t == 0,
        4 * t - offset >= t,
{
    lemma_fundamental_div_mod(offset, t);
    let a = offset / t;
    assert(0 <= a < 4) by (nonlinear_arith)
        requires
            offset == t * a,
            0 <= offset < 4 * t,
            t >= 1,
    ;
    assert(4 * t - offset == (4 - a) * t + 0 && 4 * t - offset >= t) by (nonlinear_arith)
        requires
            offset == t * a,
            a < 4,
            t >= 1,
    ;
    lemma_fundamental_div_mod_converse(4 * t - offset, t, 4 - a, 0);
}

/// An update of whole sectants is cut off at a multiple of the edge of a sectant, and
/// reaches as many sectants along each axis as that multiple tells.
pub proof fn lemma_aligned_count(cube: Cube, px: int, py: int, pz: int, size: int)
    requires
        whole_sectants(cube, px, py, pz, size),
    ensures
        1 <= sectants_reached(cube, px, py, pz, size) <= 4,
        sectants_reached(cube, px, py, pz, size) * (cube.size as int / 4) == clipped_size(
            cube,
            px,
            py,
            pz,
            size,
        ),
        clipped_size(cube, px, py, pz, size) <= size,
        px + clipped_size(cube, px, py, pz, size) <= cube.min_position.x + cube.size,
        py + clipped_size(cube, px, py, pz, size) <= cube.min_position.y + cube.size,
        pz + clipped_size(cube, px, py, pz, size) <= cube.min_position.z + cube.size,
        rounds_of(cube, px, py, pz, size) == sectants_reached(cube, px, py, pz, size)
            * sectants_reached(cube, px, py, pz, size) * sectants_reached(cube, px, py, pz, size),
{
    let t = cube.size as int / 4;
    let clipped = clipped_size(cube, px, py, pz, size);
    lemma_room(px - cube.min_position.x, t);
    lemma_room(py - cube.min_position.y, t);
    lemma_room(pz - cube.min_position.z, t);
    assert(clipped % t == 0);
    assert(t <= clipped <= 4 * t) by {
        lemma_fundamental_div_mod(size, t);
        assert(size >= t) by (nonlinear_arith)
            requires
                size == t * (size / t) + 0,
                size >= 1,
                t >= 1,
        ;
    }
    lemma_fundamental_div_mod(clipped, t);
    let k = clipped / t;
    assert(1 <= k <= 4) by (nonlinear_arith)
        requires
            clipped == t * k,
            t <= clipped <= 4 * t,
            t >= 1,
    ;
    assert(clipped + t - 1 == t * k + (t - 1));
    assert(clipped + t - 1 == k * t + (t - 1)) by (nonlinear_arith)
        requires
            clipped + t - 1 == t * k + (t - 1),
    ;
    lemma_fundamental_div_mod_converse(clipped + t - 1, t, k, t - 1);
    assert(k * t == clipped) by (nonlinear_arith)
        requires
            clipped == t * k,
    ;
}

/// The part of an update of whole sectants that the sectant of a round takes: the whole
/// sectant. The sectant starts at the corner of the round, which lies where the update
/// reaches.
pub proof fn lemma_round_part(cube: Cube, px: int, py: int, pz: int, size: int, round: int)
    requires
        whole_sectants(cube, px, py, pz, size),
        0 <= round < rounds_of(cube, px, py, pz, size),
    ensures
        0 <= round_update(cube, px, py, pz, size, round).sectant < 64,
        cube.child_cube(round_update(cube, px, py, pz, size, round).sectant).min_position.x
            == round_corner(cube, px, py, pz, size, round).0,
        cube.child_cube(round_update(cube, px, py, pz, size, round).sectant).min_position.y
            == round_corner(cube, px, py, pz, size, round).1,
        cube.child_cube(round_update(cube, px, py, pz, size, round).sectant).min_position.z
            == round_corner(cube, px, py, pz, size, round).2,
        round_update(cube, px, py, pz, size, round).x == round_corner(
            cube,
            px,
            py,
            pz,
            size,
            round,
        ).0,
        round_update(cube, px, py, pz, size, round).y == round_corner(
            cube,
            px,
            py,
            pz,
            size,
            round,
        ).1,
        round_update(cube, px, py, pz, size, round).z == round_corner(
            cube,
            px,
            py,
            pz,
            size,
            round,
        ).2,
        round_update(cube, px, py, pz, size, round).size == cube.size / 4,
        px <= round_corner(cube, px, py, pz, size, round).0,
        py <= round_corner(cube, px, py, pz, size, round).1,
        pz <= round_corner(cube, px, py, pz, size, round).2,
        round_corner(cube, px, py, pz, size, round).0 + cube.size / 4 <= px + clipped_size(
            cube,
            px,
            py,
            pz,
            size,
        ),
        round_corner(cube, px, py, pz, size, round).1 + cube.size / 4 <= py + clipped_size(
            cube,
            px,
            py,
            pz,
            size,
        ),
        round_corner(cube, px, py, pz, size, round).2 + cube.size / 4 <= pz + clipped_size(
            cube,
            px,
            py,
            pz,
            size,
        ),
{
    let t = cube.size as int / 4;
    let count = sectants_reached(cube, px, py, pz, size);
    let clipped = clipped_size(cube, px, py, pz, size);
    lemma_aligned_count(cube, px, py, pz, size);
    lemma_round_coordinates(round, count);
    let rx = round / (count * count);
    let ry = (round / count) % count;
    let rz = round % count;
    let corner = round_corner(cube, px, py, pz, size, round);
    assert(0 <= t * rx && t * rx + t <= clipped && 0 <= t * ry && t * ry + t <= clipped && 0 <= t
        * rz && t * rz + t <= clipped) by (nonlinear_arith)
        requires
            0 <= rx < count,
            0 <= ry < count,
            0 <= rz < count,
            count * t == clipped,
            t >= 1,
    ;
    assert(cube.contains_point(corner.0, corner.1, corner.2));
    lemma_shifted_offset(px - cube.min_position.x, rx, t);
    lemma_shifted_offset(py - cube.min_position.y, ry, t);
    lemma_shifted_offset(pz - cube.min_position.z, rz, t);
    assert(at_sectant_corner(cube, corner.0, corner.1, corner.2));
    lemma_corner_cube(cube, corner.0, corner.1, corner.2);
    let part = round_update(cube, px, py, pz, size, round);
    let target = cube.child_cube(part.sectant);
    assert(part.sectant == cube.sectant_of(corner.0, corner.1, corner.2));
    assert(target.size == t);
    if round == 0 {
        assert(count * count >= 1) by (nonlinear_arith)
            requires
                count >= 1,
        ;
        vstd::arithmetic::div_mod::lemma_basic_div(0, count * count);
        vstd::arithmetic::div_mod::lemma_basic_div(0, count);
        vstd::arithmetic::div_mod::lemma_small_mod(0, count as nat);
        assert(rx == 0 && ry == 0 && rz == 0);
        assert(t * rx == 0 && t * ry == 0 && t * rz == 0);
    }
    assert(part.x == corner.0 && part.y == corner.1 && part.z == corner.2);
    let left = if round == 0 {
        size
    } else {
        min_int(min_int(size - (part.x - px), size - (part.y - py)), size - (part.z - pz))
    };
    assert(left >= t);
    assert(part.size == clipped_size(target, part.x, part.y, part.z, left));
}

/// An aligned offset moved by whole edges is aligned.
pub proof fn lemma_shifted_offset(offset: int, steps: int, t: int)
    requires
        t >= 1,
        offset % t == 0,
    ensures
        (offset + t * steps) % t == 0,
{
    lemma_fundamental_div_mod(offset, t);
    let a = offset / t;
    assert(offset + t * steps == (a + steps) * t + 0) by (nonlinear_arith)
        requires
            offset == t * a,
    ;
    lemma_fundamental_div_mod_converse(offset + t * steps, t, a + steps, 0);
}

/// The position lies in the sectant of the given round.
pub open spec fn round_covers(
    cube: Cube,
    px: int,
    py: int,
    pz: int,
    size: int,
    round: int,
    x: int,
    y: int,
    z: int,
) -> bool {
    cube.child_cube(round_update(cube, px, py, pz, size, round).sectant).contains_point(x, y, z)
}

/// The position lies in the sectant of one of the first rounds.
pub open spec fn covered_below(
    cube: Cube,
    px: int,
    py: int,
    pz: int,
    size: int,
    rounds: int,
    x: int,
    y: int,
    z: int,
) -> bool {
    exists|round: int|
        0 <= round < rounds && #[trigger] round_covers(cube, px, py, pz, size, round, x, y, z)
}

/// The position lies in the cube that starts at `(px, py, pz)` and has the edge that is
/// left of the update in the cube.
pub open spec fn in_fill(
    cube: Cube,
    px: int,
    py: int,
    pz: int,
    size: int,
    x: int,
    y: int,
    z: int,
) -> bool {
    &&& px <= x < px + clipped_size(cube, px, py, pz, size)
    &&& py <= y < py + clipped_size(cube, px, py, pz, size)
    &&& pz <= z < pz + clipped_size(cube, px, py, pz, size)
}

/// A content into which a write is skipped holds the value at the position.
pub proof fn lemma_skipped_holds(
    content: VoxelContent,
    cube: Cube,
    dim: int,
    data: PaletteIndexValues,
    px: int,
    py: int,
    pz: int,
)
    requires
        write_skipped(content, cube, dim, data, px, py, pz),
    ensures
        content_voxel(content, cube, dim, px, py, pz) == data,
        content is UniformLeaf,
{
}

/// After the first rounds of an update of whole sectants that overwrites, the sectants of
/// those rounds hold the value at every voxel, and all others what they held.
pub proof fn lemma_rounds_fill(
    steps: Seq<VoxelContent>,
    cube: Cube,
    dim: int,
    data: PaletteIndexValues,
    px: int,
    py: int,
    pz: int,
    size: int,
    rounds: int,
    x: int,
    y: int,
    z: int,
)
    requires
        whole_sectants(cube, px, py, pz, size),
        1 <= dim <= cube.size / 4,
        sectants_written(steps, cube, dim, true, data, px, py, pz, size),
        !write_skipped(steps[0], cube, dim, data, px, py, pz),
        0 <= rounds <= rounds_of(cube, px, py, pz, size),
        cube.contains_point(x, y, z),
    ensures
        content_voxel(steps[rounds], cube, dim, x, y, z) == (if covered_below(
            cube,
            px,
            py,
            pz,
            size,
            rounds,
            x,
            y,
            z,
        ) {
            data
        } else {
            content_voxel(steps[0], cube, dim, x, y, z)
        }),
        rounds >= 1 ==> steps[rounds] is Leaf,
    decreases rounds,
{
    if rounds > 0 {
        let round = rounds - 1;
        lemma_rounds_fill(steps, cube, dim, data, px, py, pz, size, round, x, y, z);
        lemma_round_part(cube, px, py, pz, size, round);
        let part = round_update(cube, px, py, pz, size, round);
        let target = cube.child_cube(part.sectant);
        let t = cube.size as int / 4;
        assert(round_written(steps, cube, dim, true, data, px, py, pz, size, round));
        let cells = choose|cells: int| #[trigger]
            leaf_updated(
                steps[round + 1],
                cells,
                steps[round],
                cube,
                part.sectant,
                dim,
                true,
                data,
                part.x,
                part.y,
                part.z,
                part.size,
            );
        // the rounds before, and this one
        if covered_below(cube, px, py, pz, size, rounds, x, y, z) {
            let r = choose|r: int|
                0 <= r < rounds && #[trigger] round_covers(cube, px, py, pz, size, r, x, y, z);
            if r < round {
                assert(covered_below(cube, px, py, pz, size, round, x, y, z));
            }
        }
        if covered_below(cube, px, py, pz, size, round, x, y, z) {
            let r = choose|r: int|
                0 <= r < round && #[trigger] round_covers(cube, px, py, pz, size, r, x, y, z);
            assert(0 <= r < rounds && round_covers(cube, px, py, pz, size, r, x, y, z));
        }
        if round_covers(cube, px, py, pz, size, round, x, y, z) {
            assert(0 <= round < rounds && round_covers(cube, px, py, pz, size, round, x, y, z));
        }
        if write_skipped(steps[round], cube, dim, data, part.x, part.y, part.z) {
            lemma_skipped_holds(steps[round], cube, dim, data, part.x, part.y, part.z);
            if round == 0 {
                assert(part.x == px && part.y == py && part.z == pz);
            }
            assert(false);
        }
        if target.contains_point(x, y, z) {
            lemma_sectant_of_child_point(cube, part.sectant, x, y, z);
            if holds_solid(steps[round], part.sectant, data) {
                assert(steps[round + 1] == steps[round]);
            } else {
                lemma_matrix_coordinate_bound(x - target.min_position.x, dim, t);
                lemma_matrix_coordinate_bound(y - target.min_position.y, dim, t);
                lemma_matrix_coordinate_bound(z - target.min_position.z, dim, t);
                assert(matrix_coordinate(0, dim, t) == 0);
                assert(in_written_box(target, dim, part.x, part.y, part.z, part.size, x, y, z));
            }
        }
    }
}

/// The sectants of the rounds of an update of whole sectants are those of the cube that
/// starts at the position and has the edge that is left of the update.
pub proof fn lemma_covered_is_fill(
    cube: Cube,
    px: int,
    py: int,
    pz: int,
    size: int,
    x: int,
    y: int,
    z: int,
)
    requires
        whole_sectants(cube, px, py, pz, size),
        cube.contains_point(x, y, z),
    ensures
        covered_below(cube, px, py, pz, size, rounds_of(cube, px, py, pz, size), x, y, z)
            == in_fill(cube, px, py, pz, size, x, y, z),
{
    let t = cube.size as int / 4;
    let count = sectants_reached(cube, px, py, pz, size);
    let clipped = clipped_size(cube, px, py, pz, size);
    let rounds = rounds_of(cube, px, py, pz, size);
    lemma_aligned_count(cube, px, py, pz, size);
    if covered_below(cube, px, py, pz, size, rounds, x, y, z) {
        let r = choose|r: int|
            0 <= r < rounds && #[trigger] round_covers(cube, px, py, pz, size, r, x, y, z);
        lemma_round_part(cube, px, py, pz, size, r);
    }
    if in_fill(cube, px, py, pz, size, x, y, z) {
        let cx = (x - px) / t;
        let cy = (y - py) / t;
        let cz = (z - pz) / t;
        lemma_fundamental_div_mod(x - px, t);
        lemma_fundamental_div_mod(y - py, t);
        lemma_fundamental_div_mod(z - pz, t);
        assert(0 <= cx < count && 0 <= cy < count && 0 <= cz < count) by (nonlinear_arith)
            requires
                x - px == t * cx + (x - px) % t,
                y - py == t * cy + (y - py) % t,
                z - pz == t * cz + (z - pz) % t,
                0 <= (x - px) % t < t,
                0 <= (y - py) % t < t,
                0 <= (z - pz) % t < t,
                0 <= x - px < clipped,
                0 <= y - py < clipped,
                0 <= z - pz < clipped,
                count * t == clipped,
                t >= 1,
        ;
        let r = cx * count * count + cy * count + cz;
        lemma_round_of_coordinates(cx, cy, cz, count);
        lemma_round_part(cube, px, py, pz, size, r);
        assert(round_covers(cube, px, py, pz, size, r, x, y, z));
    }
}

/// An update of whole sectants that overwrites fills the cube that starts at the position
/// and has the edge that is left of the update in the node: every voxel of it holds the
/// value afterwards, and every other voxel of the node what it held.
pub proof fn lemma_whole_sectants_written(
    steps: Seq<VoxelContent>,
    cube: Cube,
    dim: int,
    data: PaletteIndexValues,
    px: int,
    py: int,
    pz: int,
    size: int,
    x: int,
    y: int,
    z: int,
)
    requires
        whole_sectants(cube, px, py, pz, size),
        1 <= dim <= cube.size / 4,
        sectants_written(steps, cube, dim, true, data, px, py, pz, size),
        !write_skipped(steps[0], cube, dim, data, px, py, pz),
        cube.contains_point(x, y, z),
    ensures
        content_voxel(steps.last(), cube, dim, x, y, z) == (if in_fill(
            cube,
            px,
            py,
            pz,
            size,
            x,
            y,
            z,
        ) {
            data
        } else {
            content_voxel(steps[0], cube, dim, x, y, z)
        }),
{
    let rounds = rounds_of(cube, px, py, pz, size);
    lemma_aligned_count(cube, px, py, pz, size);
    assert(rounds >= 0) by (nonlinear_arith)
        requires
            rounds == sectants_reached(cube, px, py, pz, size) * sectants_reached(
                cube,
                px,
                py,
                pz,
                size,
            ) * sectants_reached(cube, px, py, pz, size),
            sectants_reached(cube, px, py, pz, size) >= 1,
    ;
    lemma_rounds_fill(steps, cube, dim, data, px, py, pz, size, rounds, x, y, z);
    lemma_covered_is_fill(cube, px, py, pz, size, x, y, z);
}

impl<T: VoxelData> Contree<T> {
    /// A write of whole sectants that overwrites fills a cube of the tree: where the update
    /// starts at a corner of a sectant of the node that takes it, with a size that is a
    /// multiple of the edge of a sectant, and the position does not hold the value yet, every
    /// voxel of the cube that starts at the position and has the edge that is left of the
    /// update in that node holds the value afterwards.
    pub proof fn lemma_bulk_fills(
        &self,
        after: &Self,
        data: PaletteIndexValues,
        px: int,
        py: int,
        pz: int,
        size: int,
        x: int,
        y: int,
        z: int,
    )
        requires
            self.wf(),
            after.contree_size == self.contree_size,
            self.root_cube().contains_point(px, py, pz),
            size >= 1,
            self.bulk_written(after, 0, self.root_cube(), true, data, px, py, pz, size),
            self.voxel(px, py, pz) != data,
            whole_sectants(
                self.taker_cube(0, self.root_cube(), px, py, pz, max_int(size, self.dim())),
                px,
                py,
                pz,
                size,
            ),
            in_fill(
                self.taker_cube(0, self.root_cube(), px, py, pz, max_int(size, self.dim())),
                px,
                py,
                pz,
                size,
                x,
                y,
                z,
            ),
        ensures
            after.voxel(x, y, z) == data,
    {
        let root = self.root_cube();
        let dim = self.dim();
        let reach = max_int(size, dim);
        let cube = self.taker_cube(0, root, px, py, pz, reach);
        let end = self.path_end(0, root, px, py, pz);
        lemma_power_of_two_positive(dim);
        self.lemma_taker_cube(0, px, py, pz, reach);
        lemma_node_size(cube.size as int, dim);
        lemma_aligned_count(cube, px, py, pz, size);
        assert(cube.contains_point(x, y, z));
        assert(root.contains_point(x, y, z));
        let steps = choose|steps: Seq<VoxelContent>| #[trigger]
            self.taken_by(after, 0, root, steps, true, data, px, py, pz, size);
        // the node that takes the update does not hold the value at the position yet
        if write_skipped(steps[0], cube, dim, data, px, py, pz) {
            lemma_skipped_holds(steps[0], cube, dim, data, px, py, pz);
            if end.1.size / 4 <= reach {
                assert(cube == end.1);
                if !(self.nodes.item(end.0) is Internal) {
                    self.lemma_voxel_of_leaf(end.0, end.1, px, py, pz);
                }
            }
            assert(false);
        }
        lemma_whole_sectants_written(steps, cube, dim, data, px, py, pz, size, x, y, z);
    }
}

} // verus!
