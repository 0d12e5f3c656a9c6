//! Reading a tree from its byte representation.
use vstd::prelude::*;
use crate::bytecode::{
    byte_of, dec_u32, enc_brick, enc_bricks, enc_u32, enc_values, get_u32, lemma_u32_bytes,
    TAG_EMPTY, TAG_PARTED, TAG_SOLID,
};
use crate::leaf::brick_len;
use crate::node::brick_volume;
use crate::palette::index_in_palettes;
use crate::types::{ChunkData, PaletteIndexValues, VoxelContent};

verus! {

/// The part stands in the bytes at the given place.
pub open spec fn has_at(bytes: Seq<u8>, pos: int, part: Seq<u8>) -> bool {
    &&& 0 <= pos
    &&& pos + part.len() <= bytes.len()
    &&& forall|i: int| 0 <= i < part.len() ==> bytes[pos + i] == #[trigger] part[i]
}

/// Two parts stand one after the other at a place if and only if their concatenation
/// stands there.
pub proof fn lemma_has_at_concat(bytes: Seq<u8>, pos: int, first: Seq<u8>, second: Seq<u8>)
    ensures
        has_at(bytes, pos, first + second) <==> has_at(bytes, pos, first) && has_at(
            bytes,
            pos + first.len(),
            second,
        ),
{
    if has_at(bytes, pos, first + second) {
        assert forall|i: int| 0 <= i < first.len() implies bytes[pos + i]
            == #[trigger] first[i] by {
            assert((first + second)[i] == first[i]);
        }
        assert forall|i: int| 0 <= i < second.len() implies bytes[pos + first.len() + i]
            == #[trigger] second[i] by {
            assert((first + second)[first.len() + i] == second[i]);
        }
    }
    if has_at(bytes, pos, first) && has_at(bytes, pos + first.len(), second) {
        assert forall|i: int| 0 <= i < (first + second).len() implies bytes[pos + i] == #[trigger] (
        first + second)[i] by {
            if i < first.len() {
                assert(first[i] == (first + second)[i]);
            } else {
                assert(second[i - first.len()] == (first + second)[i]);
            }
        }
    }
}

/// The four bytes of a number, standing at a place, are read as that number.
pub proof fn lemma_has_u32(bytes: Seq<u8>, pos: int, value: u32)
    requires
        has_at(bytes, pos, enc_u32(value)),
    ensures
        dec_u32(bytes, pos) == value,
        pos + 4 <= bytes.len(),
{
    lemma_u32_bytes(value);
    assert(enc_u32(value)[0] == byte_of(value as int, 0));
    assert(enc_u32(value)[1] == byte_of(value as int, 1));
    assert(enc_u32(value)[2] == byte_of(value as int, 2));
    assert(enc_u32(value)[3] == byte_of(value as int, 3));
}

/// Tells whether both halves of the value refer to entries of palettes of the given
/// lengths, or to none.
pub fn index_fits(index: PaletteIndexValues, colors: usize, data: usize) -> (r: bool)
    ensures
        r == index_in_palettes(index, colors as int, data as int),
{
    let color: usize = VoxelContent::pix_color_index(&index);
    let more: usize = VoxelContent::pix_data_index(&index);
    (color == 0xFFFF || color < colors) && (more == 0xFFFF || more < data)
}

/// The brick is one that the bytes at the place can be read as: it fits the brick dimension
/// and the palettes, and its bytes stand there.
pub open spec fn brick_written_at(
    src: ChunkData,
    bytes: Seq<u8>,
    pos: int,
    dim: int,
    colors: int,
    data: int,
) -> bool {
    &&& src.wf(dim)
    &&& src.in_palettes(colors, data)
    &&& has_at(bytes, pos, enc_brick(src))
}

/// What was read is the given brick, and the place after it the place after its bytes.
pub open spec fn brick_read_as(r: Option<(ChunkData, usize)>, src: ChunkData, pos: int) -> bool {
    match r {
        Some((brick, next)) => next == pos + enc_brick(src).len() && brick.same_as(&src),
        None => false,
    }
}

/// The values read so far are the first values of the given brick, a matrix.
pub open spec fn values_read_from(src: ChunkData, values: Seq<u32>, count: int) -> bool {
    match src {
        ChunkData::Parted(given) => values.len() == count && count <= given.len() && forall|
            j: int,
        | 0 <= j < count ==> values[j] == given[j],
        _ => false,
    }
}

/// Reads a brick. Returns the brick and the place after it; or nothing, if the bytes at the
/// place are not those of a brick that fits the brick dimension and the palettes.
pub fn decode_brick(bytes: &Vec<u8>, pos: usize, chunk_dim: u32, colors: usize, data: usize) -> (r:
    Option<(ChunkData, usize)>)
    requires
        0 < chunk_dim <= 1024,
    ensures
        r matches Some((brick, next)) ==> brick.wf(chunk_dim as int) && brick.in_palettes(
            colors as int,
            data as int,
        ) && pos < next <= bytes.len(),
        forall|src: ChunkData| #[trigger]
            brick_written_at(src, bytes@, pos as int, chunk_dim as int, colors as int, data as int)
                ==> brick_read_as(r, src, pos as int),
{
    let ghost dim = chunk_dim as int;
    if pos >= bytes.len() {
        proof {
            assert forall|src: ChunkData| #[trigger]
                brick_written_at(src, bytes@, pos as int, dim, colors as int, data as int)
                implies false by {
                assert(enc_brick(src).len() >= 1);
            }
        }
        return None;
    }
    let tag: u8 = bytes[pos];
    proof {
        assert forall|src: ChunkData| #[trigger]
            brick_written_at(src, bytes@, pos as int, dim, colors as int, data as int)
            implies tag == enc_brick(src)[0] && (tag == TAG_EMPTY <==> src is Empty) && (tag
            == TAG_SOLID <==> src is Solid) && (tag == TAG_PARTED <==> src is Parted) by {
            assert(bytes@[pos + 0] == enc_brick(src)[0]);
        }
    }
    if tag == TAG_EMPTY {
        return Some((ChunkData::Empty, pos + 1));
    }
    if tag == TAG_SOLID {
        let value: u32 = match get_u32(bytes, pos + 1) {
            Some(value) => value,
            None => {
                proof {
                    assert forall|src: ChunkData| #[trigger]
                        brick_written_at(src, bytes@, pos as int, dim, colors as int, data as int)
                        implies false by {
                        assert(enc_brick(src).len() == 5);
                    }
                }
                return None;
            },
        };
        proof {
            assert forall|src: ChunkData| #[trigger]
                brick_written_at(src, bytes@, pos as int, dim, colors as int, data as int)
                implies src == ChunkData::Solid(value) by {
                match src {
                    ChunkData::Solid(voxel) => {
                        lemma_has_at_concat(bytes@, pos as int, seq![TAG_SOLID], enc_u32(voxel));
                        lemma_has_u32(bytes@, pos + 1, voxel);
                    },
                    _ => {},
                }
            }
        }
        if !index_fits(value, colors, data) {
            return None;
        }
        return Some((ChunkData::Solid(value), pos + 5));
    }
    if tag != TAG_PARTED {
        return None;
    }
    let count: usize = brick_len(chunk_dim);
    let mut values: Vec<PaletteIndexValues> = Vec::new();
    let mut i: usize = 0;
    let mut place: usize = pos + 1;
    while i < count
        invariant
            i <= count,
            dim == chunk_dim,
            count == brick_volume(dim),
            values.len() == i,
            place == pos + 1 + 4 * i,
            place <= bytes.len(),
            pos < bytes.len(),
            forall|j: int|
                0 <= j < i ==> index_in_palettes(#[trigger] values[j], colors as int, data as int),
            forall|src: ChunkData| #[trigger]
                brick_written_at(src, bytes@, pos as int, dim, colors as int, data as int)
                    ==> values_read_from(src, values@, i as int),
        decreases count - i,
    {
        let value: u32 = match get_u32(bytes, place) {
            Some(value) => value,
            None => {
                proof {
                    assert forall|src: ChunkData| #[trigger]
                        brick_written_at(src, bytes@, pos as int, dim, colors as int, data as int)
                        implies false by {
                        assert(values_read_from(src, values@, i as int));
                        match src {
                            ChunkData::Parted(given) => {
                                assert(given.len() == count);
                                assert(enc_brick(src).len() == 1 + 4 * count);
                            },
                            _ => {},
                        }
                    }
                }
                return None;
            },
        };
        proof {
            assert forall|src: ChunkData| #[trigger]
                brick_written_at(src, bytes@, pos as int, dim, colors as int, data as int)
                implies values_read_from(src, values@.push(value), i + 1) by {
                assert(values_read_from(src, values@, i as int));
                match src {
                    ChunkData::Parted(given) => {
                        assert(given.len() == count);
                        lemma_value_at(bytes@, pos as int, given@, i as int);
                        assert(given[i as int] == value);
                    },
                    _ => {},
                }
            }
        }
        if !index_fits(value, colors, data) {
            proof {
                assert forall|src: ChunkData| #[trigger]
                    brick_written_at(src, bytes@, pos as int, dim, colors as int, data as int)
                    implies false by {
                    assert(values_read_from(src, values@.push(value), i + 1));
                    match src {
                        ChunkData::Parted(given) => {
                            assert(values@.push(value)[i as int] == given[i as int]);
                            assert(given[i as int] == value);
                            assert(index_in_palettes(given[i as int], colors as int, data as int));
                        },
                        _ => {},
                    }
                }
            }
            return None;
        }
        values.push(value);
        place += 4;
        i += 1;
    }
    proof {
        assert forall|src: ChunkData| #[trigger]
            brick_written_at(src, bytes@, pos as int, dim, colors as int, data as int)
            implies place == pos + enc_brick(src).len() && ChunkData::Parted(values).same_as(
            &src,
        ) by {
            match src {
                ChunkData::Parted(given) => {
                    assert(values@ =~= given@);
                },
                _ => {},
            }
        }
    }
    Some((ChunkData::Parted(values), place))
}

/// The values of a matrix whose bytes stand at a place, after its tag, are read four bytes
/// each.
pub proof fn lemma_value_at(bytes: Seq<u8>, pos: int, given: Seq<u32>, index: int)
    requires
        has_at(bytes, pos, seq![TAG_PARTED] + enc_values(given)),
        0 <= index < given.len(),
    ensures
        dec_u32(bytes, pos + 1 + 4 * index) == given[index],
        pos + 1 + 4 * index + 4 <= bytes.len(),
{
    let part = seq![TAG_PARTED] + enc_values(given);
    lemma_u32_bytes(given[index]);
    assert forall|place: int| 0 <= place < 4 implies bytes[pos + 1 + 4 * index + place] == byte_of(
        given[index] as int,
        place,
    ) by {
        let at = 1 + 4 * index + place;
        assert(bytes[pos + at] == part[at]);
        assert(part[at] == enc_values(given)[4 * index + place]);
        assert((4 * index + place) / 4 == index && (4 * index + place) % 4 == place);
    }
}

/// The bricks are those of a leaf that the bytes at the place can be read as.
pub open spec fn bricks_written_at(
    src: Vec<ChunkData>,
    bytes: Seq<u8>,
    pos: int,
    dim: int,
    colors: int,
    data: int,
) -> bool {
    &&& VoxelContent::Leaf(src).wf(dim)
    &&& VoxelContent::Leaf(src).in_palettes(colors, data)
    &&& has_at(bytes, pos, enc_bricks(src@, 0))
}

/// What was read are the given bricks, and the place after them the place after their bytes.
pub open spec fn bricks_read_as(r: Option<(Vec<ChunkData>, usize)>, src: Vec<ChunkData>,
    pos: int) -> bool {
    match r {
        Some((bricks, next)) => next == pos + enc_bricks(src@, 0).len()
            && VoxelContent::Leaf(bricks).same_as(&VoxelContent::Leaf(src)),
        None => false,
    }
}

/// The bricks read so far are the first of the given bricks, and the bytes of the others
/// stand at the place reached.
pub open spec fn bricks_read_from(
    src: Vec<ChunkData>,
    bricks: Seq<ChunkData>,
    count: int,
    bytes: Seq<u8>,
    place: int,
    pos: int,
) -> bool {
    &&& has_at(bytes, place, enc_bricks(src@, count))
    &&& place + enc_bricks(src@, count).len() == pos + enc_bricks(src@, 0).len()
    &&& forall|j: int| 0 <= j < count ==> (#[trigger] bricks[j]).same_as(&src[j])
}

/// Reads the sixty-four bricks of a leaf. Returns the bricks and the place after them; or
/// nothing, if the bytes at the place are not those of sixty-four bricks that fit the brick
/// dimension and the palettes.
pub fn decode_leaf_bricks(bytes: &Vec<u8>, pos: usize, chunk_dim: u32, colors: usize,
    data: usize) -> (r:
    Option<(Vec<ChunkData>, usize)>)
    requires
        0 < chunk_dim <= 1024,
        pos <= bytes.len(),
    ensures
        r matches Some((bricks, next)) ==> VoxelContent::Leaf(bricks).wf(chunk_dim as int)
            && VoxelContent::Leaf(bricks).in_palettes(colors as int, data as int) && pos < next
            <= bytes.len(),
        forall|src: Vec<ChunkData>| #[trigger]
            bricks_written_at(src, bytes@, pos as int, chunk_dim as int, colors as int, data as int)
                ==> bricks_read_as(r, src, pos as int),
{
    let ghost dim = chunk_dim as int;
    let mut bricks: Vec<ChunkData> = Vec::new();
    let mut place: usize = pos;
    let mut sectant: usize = 0;
    while sectant < 64
        invariant
            sectant <= 64,
            dim == chunk_dim,
            0 < chunk_dim <= 1024,
            bricks.len() == sectant,
            pos <= place <= bytes.len(),
            sectant > 0 ==> pos < place,
            forall|j: int|
                0 <= j < sectant ==> (#[trigger] bricks[j]).wf(dim) && bricks[j].in_palettes(
                    colors as int,
                    data as int,
                ),
            forall|src: Vec<ChunkData>| #[trigger]
                bricks_written_at(src, bytes@, pos as int, dim, colors as int, data as int)
                    ==> bricks_read_from(src, bricks@, sectant as int, bytes@, place as int,
                        pos as int),
        decreases 64 - sectant,
    {
        let read: Option<(ChunkData, usize)> = decode_brick(bytes, place, chunk_dim, colors, data);
        proof {
            assert forall|src: Vec<ChunkData>| #[trigger]
                bricks_written_at(src, bytes@, pos as int, dim, colors as int, data as int)
                implies brick_written_at(
                src[sectant as int],
                bytes@,
                place as int,
                dim,
                colors as int,
                data as int,
            ) && has_at(
                bytes@,
                place + enc_brick(src[sectant as int]).len(),
                enc_bricks(src@, sectant + 1),
            ) by {
                assert(bricks_read_from(
                    src,
                    bricks@,
                    sectant as int,
                    bytes@,
                    place as int,
                    pos as int,
                ));
                assert(src[sectant as int].wf(dim));
                assert(src[sectant as int].in_palettes(colors as int, data as int));
                lemma_has_at_concat(
                    bytes@,
                    place as int,
                    enc_brick(src[sectant as int]),
                    enc_bricks(src@, sectant + 1),
                );
            }
        }
        let (brick, next): (ChunkData, usize) = match read {
            Some(read) => read,
            None => {
                return None;
            },
        };
        proof {
            assert forall|src: Vec<ChunkData>| #[trigger]
                bricks_written_at(src, bytes@, pos as int, dim, colors as int, data as int)
                implies bricks_read_from(
                src,
                bricks@.push(brick),
                sectant + 1,
                bytes@,
                next as int,
                pos as int,
            ) by {
                assert(bricks_read_from(
                    src,
                    bricks@,
                    sectant as int,
                    bytes@,
                    place as int,
                    pos as int,
                ));
                assert(brick_written_at(
                    src[sectant as int],
                    bytes@,
                    place as int,
                    dim,
                    colors as int,
                    data as int,
                ));
                assert(brick_read_as(read, src[sectant as int], place as int));
                assert forall|j: int| 0 <= j < sectant + 1 implies (#[trigger] bricks@.push(
                    brick,
                )[j]).same_as(&src[j]) by {
                    if j < sectant {
                        assert(bricks@[j].same_as(&src[j]));
                    }
                }
            }
        }
        bricks.push(brick);
        place = next;
        sectant += 1;
    }
    proof {
        assert forall|src: Vec<ChunkData>| #[trigger]
            bricks_written_at(src, bytes@, pos as int, dim, colors as int, data as int)
            implies bricks_read_as(Some((bricks, place)), src, pos as int) by {
            assert(bricks_read_from(src, bricks@, 64, bytes@, place as int, pos as int));
            assert(enc_bricks(src@, 64) =~= Seq::<u8>::empty());
            assert forall|j: int| 0 <= j < bricks.len() implies (#[trigger] bricks[j]).same_as(
                &src[j],
            ) by {
                assert(bricks@[j].same_as(&src[j]));
            }
        }
    }
    Some((bricks, place))
}

} // verus!
