//! Occupancy bitmaps: one bit for each of the sixty-four sectants of a node.
use vstd::prelude::*;
use crate::spatial::{sectant_x, sectant_y, sectant_z, min_int, V3c};

verus! {

/// Bit `i` of the bitmap is set.
pub open spec fn bit_is_set(bitmap: u64, i: int) -> bool {
    (bitmap >> (i as u64)) & 1 == 1
}

/// The first sectant coordinate that a matrix cell at coordinate `p` covers in a brick of
/// edge `dim`.
pub open spec fn covered_start(p: int, dim: int) -> int {
    if dim == 1 {
        0
    } else if dim == 2 {
        2 * p
    } else {
        p * 4 / dim
    }
}

/// One past the last sectant coordinate that `size` matrix cells starting at coordinate `p`
/// cover in a brick of edge `dim`.
pub open spec fn covered_end(p: int, size: int, dim: int) -> int {
    if dim == 1 {
        4
    } else if dim == 2 {
        2 * (p + min_int(size, 2 - p))
    } else {
        min_int(p * 4 / dim + (size * 4 + dim - 1) / dim, 4)
    }
}

/// The sectant lies in the part of the bitmap that an update of `size` cells starting at
/// `(px, py, pz)` covers.
pub open spec fn sectant_covered(
    sectant: int,
    px: int,
    py: int,
    pz: int,
    size: int,
    dim: int,
) -> bool {
    &&& covered_start(px, dim) <= sectant_x(sectant) < covered_end(px, size, dim)
    &&& covered_start(py, dim) <= sectant_y(sectant) < covered_end(py, size, dim)
    &&& covered_start(pz, dim) <= sectant_z(sectant) < covered_end(pz, size, dim)
}

proof fn lemma_set_bit(b: u64, i: u64, j: u64)
    requires
        i < 64,
        j < 64,
    ensures
        ((b | (1u64 << i)) >> j) & 1 == (if i == j {
            1u64
        } else {
            (b >> j) & 1
        }),
        ((b & !(1u64 << i)) >> j) & 1 == (if i == j {
            0u64
        } else {
            (b >> j) & 1
        }),
{
    assert(((b | (1u64 << i)) >> j) & 1 == (if i == j {
        1u64
    } else {
        (b >> j) & 1
    })) by (bit_vector)
        requires
            i < 64,
            j < 64,
    ;
    assert(((b & !(1u64 << i)) >> j) & 1 == (if i == j {
        0u64
    } else {
        (b >> j) & 1
    })) by (bit_vector)
        requires
            i < 64,
            j < 64,
    ;
}

/// The bitmap with bit `index` set to `value` and every other bit kept.
pub fn with_bit(bitmap: u64, index: u8, value: bool) -> (r: u64)
    requires
        index < 64,
    ensures
        forall|j: int| 0 <= j < 64 ==> bit_is_set(r, j) == (if j == index {
            value
        } else {
            bit_is_set(bitmap, j)
        }),
{
    let r: u64 = if value {
        bitmap | (1u64 << index)
    } else {
        bitmap & !(1u64 << index)
    };
    assert forall|j: int| 0 <= j < 64 implies bit_is_set(r, j) == (if j == index {
        value
    } else {
        bit_is_set(bitmap, j)
    }) by {
        lemma_set_bit(bitmap, index as u64, j as u64);
    }
    r
}

/// Tells whether bit `index` of the bitmap is set.
pub fn bit_at(bitmap: u64, index: u8) -> (r: bool)
    requires
        index < 64,
    ensures
        r == bit_is_set(bitmap, index as int),
{
    (bitmap >> index) & 1 == 1
}

/// Every bit of the full bitmap is set and no bit of the empty bitmap is.
pub proof fn lemma_constant_bitmaps(j: int)
    requires
        0 <= j < 64,
    ensures
        bit_is_set(u64::MAX, j),
        !bit_is_set(0, j),
{
    let i = j as u64;
    assert((0xFFFF_FFFF_FFFF_FFFFu64 >> i) & 1 == 1) by (bit_vector)
        requires
            i < 64,
    ;
    assert((0u64 >> i) & 1 == 0) by (bit_vector)
        requires
            i < 64,
    ;
}

fn covered_range(p: usize, size: usize, dim: usize) -> (r: (u8, u8))
    requires
        p < dim,
        dim == 1 || dim == 2 || dim >= 4,
    ensures
        r.0 == covered_start(p as int, dim as int),
        r.1 == covered_end(p as int, size as int, dim as int),
        r.0 <= 4,
        r.1 <= 4,
{
    if dim == 1 {
        (0, 4)
    } else if dim == 2 {
        let room: usize = 2 - p;
        let count: usize = if size < room {
            size
        } else {
            room
        };
        ((2 * p) as u8, (2 * (p + count)) as u8)
    } else {
        let start: u128 = (p as u128) * 4 / (dim as u128);
        let count: u128 = ((size as u128) * 4 + (dim as u128) - 1) / (dim as u128);
        assert((p as int) * 4 / (dim as int) < 4) by (nonlinear_arith)
            requires
                0 <= p < dim,
        ;
        let end: u128 = if start + count < 4 {
            start + count
        } else {
            4
        };
        (start as u8, end as u8)
    }
}

/// Marks the sectants that are covered by `size` cells starting at `position`, inside a brick
/// of edge `brick_dim`, as occupied or as free; every other bit of the bitmap stays.
pub fn set_occupied_bitmap_value(
    position: &V3c<usize>,
    size: usize,
    brick_dim: usize,
    occupied: bool,
    bitmap: &mut u64,
)
    requires
        position.x < brick_dim,
        position.y < brick_dim,
        position.z < brick_dim,
        brick_dim == 1 || brick_dim == 2 || brick_dim >= 4,
    ensures
        forall|j: int|
            0 <= j < 64 ==> bit_is_set(*final(bitmap), j) == (if sectant_covered(
                j,
                position.x as int,
                position.y as int,
                position.z as int,
                size as int,
                brick_dim as int,
            ) {
                occupied
            } else {
                bit_is_set(*old(bitmap), j)
            }),
{
    let rx: (u8, u8) = covered_range(position.x, size, brick_dim);
    let ry: (u8, u8) = covered_range(position.y, size, brick_dim);
    let rz: (u8, u8) = covered_range(position.z, size, brick_dim);
    let mut sectant: u8 = 0;
    while sectant < 64
        invariant
            sectant <= 64,
            rx.0 == covered_start(position.x as int, brick_dim as int),
            rx.1 == covered_end(position.x as int, size as int, brick_dim as int),
            ry.0 == covered_start(position.y as int, brick_dim as int),
            ry.1 == covered_end(position.y as int, size as int, brick_dim as int),
            rz.0 == covered_start(position.z as int, brick_dim as int),
            rz.1 == covered_end(position.z as int, size as int, brick_dim as int),
            forall|j: int|
                0 <= j < 64 ==> bit_is_set(*bitmap, j) == (if j < sectant && sectant_covered(
                    j,
                    position.x as int,
                    position.y as int,
                    position.z as int,
                    size as int,
                    brick_dim as int,
                ) {
                    occupied
                } else {
                    bit_is_set(*old(bitmap), j)
                }),
        decreases 64 - sectant,
    {
        let sx: u8 = sectant % 4;
        let sy: u8 = (sectant / 4) % 4;
        let sz: u8 = sectant / 16;
        if rx.0 <= sx && sx < rx.1 && ry.0 <= sy && sy < ry.1 && rz.0 <= sz && sz < rz.1 {
            *bitmap = with_bit(*bitmap, sectant, occupied);
        }
        sectant += 1;
    }
}

} // verus!
