//! Palette index values: a color index and a data index packed into one number.
use vstd::prelude::*;
use crate::types::{Albedo, ContreeEntry, PaletteIndexValues, VoxelContent, VoxelData, NO_INDEX};

verus! {

/// The color palette index held in the low half of the value.
pub open spec fn color_index_of(index: PaletteIndexValues) -> int {
    index as int % 0x1_0000
}

/// The data palette index held in the high half of the value.
pub open spec fn data_index_of(index: PaletteIndexValues) -> int {
    index as int / 0x1_0000
}

/// The value that holds the two palette indices.
pub open spec fn packed_index(color: int, data: int) -> int {
    color + data * 0x1_0000
}

/// The value refers to a color.
pub open spec fn has_color(index: PaletteIndexValues) -> bool {
    color_index_of(index) != NO_INDEX
}

/// The value refers to user data.
pub open spec fn has_data(index: PaletteIndexValues) -> bool {
    data_index_of(index) != NO_INDEX
}

/// Both halves of the value refer to entries that the palettes hold, or to none.
pub open spec fn index_in_palettes(index: PaletteIndexValues, colors: int, data: int) -> bool {
    &&& has_color(index) ==> color_index_of(index) < colors
    &&& has_data(index) ==> data_index_of(index) < data
}

/// The value points at nothing to show and nothing to tell: its color is missing or
/// transparent, and its data is missing or empty.
pub open spec fn points_to_empty<T: VoxelData>(
    index: PaletteIndexValues,
    colors: Seq<Albedo>,
    data: Seq<T>,
) -> bool {
    &&& !has_color(index) || colors[color_index_of(index)].transparent()
    &&& !has_data(index) || data[data_index_of(index)].empty()
}

/// The entry that the value stands for.
pub open spec fn entry_of<'a, T: VoxelData>(
    index: PaletteIndexValues,
    colors: Seq<Albedo>,
    data: Seq<T>,
) -> ContreeEntry<'a, T> {
    if !has_data(index) && !has_color(index) {
        ContreeEntry::Empty
    } else if !has_data(index) {
        ContreeEntry::Visual(&colors[color_index_of(index)])
    } else if !has_color(index) {
        ContreeEntry::Informative(&data[data_index_of(index)])
    } else {
        ContreeEntry::Complex(&colors[color_index_of(index)], &data[data_index_of(index)])
    }
}

/// The value that takes its color from `delta` and keeps the data of `index`.
pub open spec fn with_color_of(index: PaletteIndexValues, delta: PaletteIndexValues) -> int {
    packed_index(color_index_of(delta), data_index_of(index))
}

/// The value that takes its data from `delta` and keeps the color of `index`.
pub open spec fn with_data_of(index: PaletteIndexValues, delta: PaletteIndexValues) -> int {
    packed_index(color_index_of(index), data_index_of(delta))
}

/// The value that results when the halves that `delta` holds are written over `index`.
pub open spec fn overwritten_by(index: PaletteIndexValues, delta: PaletteIndexValues) -> int {
    packed_index(
        if has_color(delta) {
            color_index_of(delta)
        } else {
            color_index_of(index)
        },
        if has_data(delta) {
            data_index_of(delta)
        } else {
            data_index_of(index)
        },
    )
}

/// The two halves of a value give the value back, and each is below 65536.
pub proof fn lemma_index_halves(index: PaletteIndexValues)
    ensures
        packed_index(color_index_of(index), data_index_of(index)) == index,
        0 <= color_index_of(index) <= NO_INDEX,
        0 <= data_index_of(index) <= NO_INDEX,
{
}

/// Packing two halves and taking them apart again gives the halves back.
pub proof fn lemma_packed_halves(color: int, data: int)
    requires
        0 <= color <= NO_INDEX,
        0 <= data <= NO_INDEX,
    ensures
        0 <= packed_index(color, data) <= u32::MAX,
        color_index_of(packed_index(color, data) as u32) == color,
        data_index_of(packed_index(color, data) as u32) == data,
{
}

impl VoxelContent {
    /// The value of a color without data.
    pub fn pix_visual(color_index: u16) -> (r: PaletteIndexValues)
        ensures
            r == packed_index(color_index as int, NO_INDEX as int),
    {
        let c: u32 = color_index as u32;
        assert(c | (0xFFFFu32 << 16) == c + 0xFFFFu32 * 0x1_0000) by (bit_vector)
            requires
                c <= 0xFFFF,
        ;
        c | (0xFFFFu32 << 16)
    }

    /// The value of data without a color.
    pub fn pix_informal(data_index: u16) -> (r: PaletteIndexValues)
        ensures
            r == packed_index(NO_INDEX as int, data_index as int),
    {
        let d: u32 = data_index as u32;
        assert(0xFFFFu32 | (d << 16) == 0xFFFFu32 + d * 0x1_0000) by (bit_vector)
            requires
                d <= 0xFFFF,
        ;
        0xFFFFu32 | (d << 16)
    }

    /// The value of a color together with data.
    pub fn pix_complex(color_index: u16, data_index: u16) -> (r: PaletteIndexValues)
        ensures
            r == packed_index(color_index as int, data_index as int),
    {
        let c: u32 = color_index as u32;
        let d: u32 = data_index as u32;
        assert(c | (d << 16) == c + d * 0x1_0000) by (bit_vector)
            requires
                c <= 0xFFFF,
                d <= 0xFFFF,
        ;
        c | (d << 16)
    }

    /// The color palette index of the value.
    pub fn pix_color_index(index: &PaletteIndexValues) -> (r: usize)
        ensures
            r == color_index_of(*index),
            r <= NO_INDEX,
    {
        let v: u32 = *index;
        assert(v & 0x0000FFFF == v % 0x1_0000) by (bit_vector);
        (v & 0x0000FFFF) as usize
    }

    /// The data palette index of the value.
    pub fn pix_data_index(index: &PaletteIndexValues) -> (r: usize)
        ensures
            r == data_index_of(*index),
            r <= NO_INDEX,
    {
        let v: u32 = *index;
        assert((v & 0xFFFF0000) >> 16 == v / 0x1_0000) by (bit_vector);
        ((v & 0xFFFF0000) >> 16) as usize
    }

    /// The value with the color of `delta` and the data of `index`.
    pub fn pix_overwrite_color(index: PaletteIndexValues, delta: &PaletteIndexValues) -> (r:
        PaletteIndexValues)
        ensures
            r == with_color_of(index, *delta),
    {
        let d: u32 = *delta;
        assert((index & 0xFFFF0000) | (d & 0x0000FFFF) == d % 0x1_0000 + (index / 0x1_0000)
            * 0x1_0000) by (bit_vector);
        (index & 0xFFFF0000) | (d & 0x0000FFFF)
    }

    /// The value with the data of `delta` and the color of `index`.
    pub fn pix_overwrite_data(index: PaletteIndexValues, delta: &PaletteIndexValues) -> (r:
        PaletteIndexValues)
        ensures
            r == with_data_of(index, *delta),
    {
        let d: u32 = *delta;
        assert((index & 0x0000FFFF) | (d & 0xFFFF0000) == index % 0x1_0000 + (d / 0x1_0000)
            * 0x1_0000) by (bit_vector);
        (index & 0x0000FFFF) | (d & 0xFFFF0000)
    }

    /// Tells whether the value refers to a color.
    pub fn pix_color_is_some(index: &PaletteIndexValues) -> (r: bool)
        ensures
            r == has_color(*index),
    {
        Self::pix_color_index(index) < 0xFFFF
    }

    /// Tells whether the value refers to no color.
    pub fn pix_color_is_none(index: &PaletteIndexValues) -> (r: bool)
        ensures
            r == !has_color(*index),
    {
        !Self::pix_color_is_some(index)
    }

    /// Tells whether the value refers to no data.
    pub fn pix_data_is_none(index: &PaletteIndexValues) -> (r: bool)
        ensures
            r == !has_data(*index),
    {
        Self::pix_data_index(index) == 0xFFFF
    }

    /// Tells whether the value refers to data.
    pub fn pix_data_is_some(index: &PaletteIndexValues) -> (r: bool)
        ensures
            r == has_data(*index),
    {
        !Self::pix_data_is_none(index)
    }

    /// Tells whether the value points at nothing to show and nothing to tell.
    pub fn pix_points_to_empty<V: VoxelData>(
        index: &PaletteIndexValues,
        color_palette: &Vec<Albedo>,
        data_palette: &Vec<V>,
    ) -> (r: bool)
        requires
            index_in_palettes(*index, color_palette.len() as int, data_palette.len() as int),
        ensures
            r == points_to_empty(*index, color_palette@, data_palette@),
    {
        (Self::pix_color_is_none(index)
            || color_palette[Self::pix_color_index(index)].is_transparent()) && (
        Self::pix_data_is_none(index) || data_palette[Self::pix_data_index(index)].is_empty())
    }

    /// The entry that the value stands for, with its color and data taken from the palettes.
    pub fn pix_get_ref<'a, V: VoxelData>(
        index: &PaletteIndexValues,
        color_palette: &'a Vec<Albedo>,
        data_palette: &'a Vec<V>,
    ) -> (r: ContreeEntry<'a, V>)
        requires
            index_in_palettes(*index, color_palette.len() as int, data_palette.len() as int),
        ensures
            r == entry_of(*index, color_palette@, data_palette@),
    {
        if Self::pix_data_is_none(index) && Self::pix_color_is_none(index) {
            return ContreeEntry::Empty;
        }
        if Self::pix_data_is_none(index) {
            return ContreeEntry::Visual(&color_palette[Self::pix_color_index(index)]);
        }
        if Self::pix_color_is_none(index) {
            return ContreeEntry::Informative(&data_palette[Self::pix_data_index(index)]);
        }
        ContreeEntry::Complex(
            &color_palette[Self::pix_color_index(index)],
            &data_palette[Self::pix_data_index(index)],
        )
    }
}

} // verus!
