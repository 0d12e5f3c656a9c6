//! The palettes of a tree: deduplicating tables of colors and of user data.
use vstd::prelude::*;
use crate::palette::{
    color_index_of, data_index_of, entry_of, has_color, has_data, index_in_palettes,
    lemma_packed_halves, packed_index, points_to_empty,
};
use crate::tree::Contree;
use crate::types::{
    Albedo, ChunkData, ContreeEntry, PaletteIndexValues, VoxelContent, VoxelData, EMPTY_MARKER,
    NO_INDEX,
};

verus! {

/// The palette after an item was offered to it: an item that the palette holds already, or
/// no item at all, leaves it as it is; a new item is added at the end.
pub open spec fn palette_with<A>(palette: Seq<A>, item: Option<A>) -> Seq<A> {
    match item {
        None => palette,
        Some(a) => if palette.contains(a) {
            palette
        } else {
            palette.push(a)
        },
    }
}

/// The palette has no room for the item: it is new to the palette, and the palette holds as
/// many items as sixteen bits can index.
pub open spec fn palette_full_for<A>(palette: Seq<A>, item: Option<A>) -> bool {
    item matches Some(a) && !palette.contains(a) && palette.len() >= NO_INDEX
}

/// The index refers to the item in the palette, or to nothing where there is no item.
pub open spec fn refers_to<A>(index: int, palette: Seq<A>, item: Option<A>) -> bool {
    match item {
        None => index == NO_INDEX,
        Some(a) => 0 <= index < palette.len() && index < NO_INDEX && palette[index] == a,
    }
}

/// Offering an item twice changes the palette no more than offering it once, and offering
/// no item changes nothing.
pub proof fn lemma_palette_with_idempotent<A>(palette: Seq<A>, item: Option<A>)
    ensures
        palette_with(palette_with(palette, item), item) == palette_with(palette, item),
        palette_with(palette, None::<A>) == palette,
        palette_with(palette, item).len() <= palette.len() + 1,
        item is Some && palette.contains(item.unwrap()) ==> palette_with(palette, item)
            == palette,
{
    match item {
        Some(a) => {
            if !palette.contains(a) {
                let grown = palette.push(a);
                assert(grown[palette.len() as int] == a);
                assert(grown.contains(a));
            }
        },
        None => {},
    }
}

/// Looks the color up in the palette.
pub fn find_color(palette: &Vec<Albedo>, albedo: &Albedo) -> (r: Option<usize>)
    ensures
        match r {
            Some(i) => i < palette.len() && palette[i as int] == *albedo,
            None => !palette@.contains(*albedo),
        },
{
    let mut i: usize = 0;
    while i < palette.len()
        invariant
            i <= palette.len(),
            forall|j: int| 0 <= j < i ==> palette[j] != *albedo,
        decreases palette.len() - i,
    {
        if palette[i] == *albedo {
            return Some(i);
        }
        i += 1;
    }
    None
}

/// Looks the user data up in the palette.
pub fn find_data<V: VoxelData>(palette: &Vec<V>, data: &V) -> (r: Option<usize>)
    ensures
        match r {
            Some(i) => i < palette.len() && palette[i as int] == *data,
            None => !palette@.contains(*data),
        },
{
    let mut i: usize = 0;
    while i < palette.len()
        invariant
            i <= palette.len(),
            forall|j: int| 0 <= j < i ==> palette[j] != *data,
        decreases palette.len() - i,
    {
        if palette[i].is_same(data) {
            return Some(i);
        }
        i += 1;
    }
    None
}

/// A value that refers to palette entries still refers to them in longer palettes.
pub proof fn lemma_brick_in_longer_palettes(
    brick: ChunkData,
    colors: int,
    data: int,
    more_colors: int,
    more_data: int,
)
    requires
        brick.in_palettes(colors, data),
        colors <= more_colors,
        data <= more_data,
    ensures
        brick.in_palettes(more_colors, more_data),
{
    match brick {
        ChunkData::Parted(values) => {
            assert forall|i: int| 0 <= i < values.len() implies index_in_palettes(
                #[trigger] values[i],
                more_colors,
                more_data,
            ) by {
                assert(index_in_palettes(values[i], colors, data));
            }
        },
        _ => {},
    }
}

/// A content whose values refer to palette entries still refers to them in longer palettes.
pub proof fn lemma_content_in_longer_palettes(
    content: VoxelContent,
    colors: int,
    data: int,
    more_colors: int,
    more_data: int,
)
    requires
        content.in_palettes(colors, data),
        colors <= more_colors,
        data <= more_data,
    ensures
        content.in_palettes(more_colors, more_data),
{
    match content {
        VoxelContent::Leaf(bricks) => {
            assert forall|s: int| 0 <= s < bricks.len() implies (#[trigger] bricks[s]).in_palettes(
                more_colors,
                more_data,
            ) by {
                lemma_brick_in_longer_palettes(bricks[s], colors, data, more_colors, more_data);
            }
        },
        VoxelContent::UniformLeaf(brick) => {
            lemma_brick_in_longer_palettes(brick, colors, data, more_colors, more_data);
        },
        _ => {},
    }
}

/// A value that refers to entries of the palettes stands for the same entry after the
/// palettes grew at their ends.
pub proof fn lemma_entry_in_longer_palettes<'a, V: VoxelData>(
    index: PaletteIndexValues,
    colors: Seq<Albedo>,
    data: Seq<V>,
    more_colors: Seq<Albedo>,
    more_data: Seq<V>,
)
    requires
        index_in_palettes(index, colors.len() as int, data.len() as int),
        colors.is_prefix_of(more_colors),
        data.is_prefix_of(more_data),
    ensures
        entry_of::<V>(index, more_colors, more_data) == entry_of::<V>(index, colors, data),
        points_to_empty(index, more_colors, more_data) == points_to_empty(index, colors, data),
{
}

/// A brick whose values refer to palette entries holds nothing with longer palettes if and
/// only if it holds nothing with the palettes as they were.
pub proof fn lemma_nothing_in_longer_palettes<V: VoxelData>(
    brick: ChunkData,
    colors: Seq<Albedo>,
    data: Seq<V>,
    more_colors: Seq<Albedo>,
    more_data: Seq<V>,
)
    requires
        brick.in_palettes(colors.len() as int, data.len() as int),
        colors.is_prefix_of(more_colors),
        data.is_prefix_of(more_data),
    ensures
        brick.nothing(more_colors, more_data) == brick.nothing(colors, data),
{
    match brick {
        ChunkData::Solid(voxel) => {
            lemma_entry_in_longer_palettes::<V>(voxel, colors, data, more_colors, more_data);
        },
        ChunkData::Parted(values) => {
            assert forall|i: int| 0 <= i < values.len() implies points_to_empty(
                #[trigger] values[i],
                more_colors,
                more_data,
            ) == points_to_empty(values[i], colors, data) by {
                assert(index_in_palettes(values[i], colors.len() as int, data.len() as int));
                lemma_entry_in_longer_palettes::<V>(
                    values[i],
                    colors,
                    data,
                    more_colors,
                    more_data,
                );
            }
        },
        _ => {},
    }
}

/// The occupancy bitmap of a content whose values refer to palette entries is its occupancy
/// bitmap with longer palettes too.
pub proof fn lemma_bits_in_longer_palettes<V: VoxelData>(
    content: VoxelContent,
    bitmap: u64,
    dim: int,
    colors: Seq<Albedo>,
    data: Seq<V>,
    more_colors: Seq<Albedo>,
    more_data: Seq<V>,
)
    requires
        content.wf(dim),
        content.in_palettes(colors.len() as int, data.len() as int),
        colors.is_prefix_of(more_colors),
        data.is_prefix_of(more_data),
        crate::tree::content_bits_are(content, bitmap, dim, colors, data),
    ensures
        crate::tree::content_bits_are(content, bitmap, dim, more_colors, more_data),
{
    match content {
        VoxelContent::Leaf(bricks) => {
            assert forall|s: int| 0 <= s < 64 implies crate::bitmap::bit_is_set(bitmap, s) == !(
            #[trigger] bricks[s]).nothing(more_colors, more_data) by {
                assert(bricks[s].in_palettes(colors.len() as int, data.len() as int));
                lemma_nothing_in_longer_palettes(bricks[s], colors, data, more_colors, more_data);
            }
        },
        VoxelContent::UniformLeaf(brick) => {
            match brick {
                ChunkData::Solid(voxel) => {
                    lemma_entry_in_longer_palettes::<V>(
                        voxel,
                        colors,
                        data,
                        more_colors,
                        more_data,
                    );
                },
                ChunkData::Parted(values) => {
                    assert forall|j: int, cell: int|
                        0 <= cell < values.len() implies ChunkData::cell_marks(
                        values@,
                        dim,
                        more_colors,
                        more_data,
                        j,
                        cell,
                    ) == ChunkData::cell_marks(values@, dim, colors, data, j, cell) by {
                        assert(index_in_palettes(
                            values[cell],
                            colors.len() as int,
                            data.len() as int,
                        ));
                        lemma_entry_in_longer_palettes::<V>(
                            values[cell],
                            colors,
                            data,
                            more_colors,
                            more_data,
                        );
                    }
                },
                _ => {},
            }
        },
        _ => {},
    }
}

impl<T: VoxelData> Contree<T> {
    /// The tree differs from the other one in its palettes at most.
    pub open spec fn same_nodes_as(&self, other: &Self) -> bool {
        &&& self.auto_simplify == other.auto_simplify
        &&& self.contree_size == other.contree_size
        &&& self.chunk_dim == other.chunk_dim
        &&& self.nodes == other.nodes
        &&& self.node_children == other.node_children
        &&& self.node_bounds == other.node_bounds
        &&& self.node_parents == other.node_parents
    }

    /// Updates the palettes with the color and the data of the entry, as far as they are
    /// neither transparent nor empty, and returns the value that refers to them. Colors and
    /// data that the palettes hold already are not added again. Returns nothing, and leaves
    /// the palettes as they are, if a palette has no room for a new item.
    pub fn add_to_palette(&mut self, entry: &ContreeEntry<T>) -> (r: Option<PaletteIndexValues>)
        requires
            old(self).wf(),
        ensures
            final(self).wf(),
            final(self).same_nodes_as(old(self)),
            r is None <==> (palette_full_for(old(self).voxel_color_palette@, entry.kept_color())
                || palette_full_for(old(self).voxel_data_palette@, entry.kept_data())),
            r is None ==> final(self).voxel_color_palette@ == old(self).voxel_color_palette@
                && final(self).voxel_data_palette@ == old(self).voxel_data_palette@,
            r matches Some(index) ==> {
                &&& final(self).voxel_color_palette@ == palette_with(
                    old(self).voxel_color_palette@,
                    entry.kept_color(),
                )
                &&& final(self).voxel_data_palette@ == palette_with(
                    old(self).voxel_data_palette@,
                    entry.kept_data(),
                )
                &&& refers_to(
                    color_index_of(index),
                    final(self).voxel_color_palette@,
                    entry.kept_color(),
                )
                &&& refers_to(
                    data_index_of(index),
                    final(self).voxel_data_palette@,
                    entry.kept_data(),
                )
                &&& index_in_palettes(
                    index,
                    final(self).voxel_color_palette.len() as int,
                    final(self).voxel_data_palette.len() as int,
                )
            },
    {
        let color: Option<&Albedo> = match entry.albedo() {
            Some(albedo) => if albedo.is_transparent() {
                None
            } else {
                Some(albedo)
            },
            None => None,
        };
        let data: Option<&T> = match entry.data() {
            Some(data) => if data.is_empty() {
                None
            } else {
                Some(data)
            },
            None => None,
        };
        assert(match color {
            Some(c) => entry.kept_color() == Some(*c),
            None => entry.kept_color() is None,
        });
        assert(match data {
            Some(d) => entry.kept_data() == Some(*d),
            None => entry.kept_data() is None,
        });
        let known_color: Option<usize> = match color {
            Some(albedo) => find_color(&self.voxel_color_palette, albedo),
            None => None,
        };
        let known_data: Option<usize> = match data {
            Some(data) => find_data(&self.voxel_data_palette, data),
            None => None,
        };
        if color.is_some() && known_color.is_none() && self.voxel_color_palette.len() >= 0xFFFF {
            return None;
        }
        if data.is_some() && known_data.is_none() && self.voxel_data_palette.len() >= 0xFFFF {
            return None;
        }
        let ghost old_colors = self.voxel_color_palette@;
        let ghost old_data = self.voxel_data_palette@;
        let color_index: u16 = match color {
            None => 0xFFFF,
            Some(albedo) => match known_color {
                Some(i) => i as u16,
                None => {
                    let i: usize = self.voxel_color_palette.len();
                    self.voxel_color_palette.push(*albedo);
                    i as u16
                },
            },
        };
        let data_index: u16 = match data {
            None => 0xFFFF,
            Some(data) => match known_data {
                Some(i) => i as u16,
                None => {
                    let i: usize = self.voxel_data_palette.len();
                    self.voxel_data_palette.push(data.duplicate());
                    i as u16
                },
            },
        };
        proof {
            lemma_packed_halves(color_index as int, data_index as int);
            assert(old_colors.is_prefix_of(self.voxel_color_palette@));
            assert(old_data.is_prefix_of(self.voxel_data_palette@));
            assert forall|key: int| self.nodes.valid(key) implies #[trigger] self.node_ok(key) by {
                assert(old(self).node_ok(key));
                lemma_content_in_longer_palettes(
                    self.nodes.item(key),
                    old_colors.len() as int,
                    old_data.len() as int,
                    self.voxel_color_palette.len() as int,
                    self.voxel_data_palette.len() as int,
                );
                match self.node_children[key] {
                    crate::types::VoxelChildren::OccupancyBitmap(bits) => {
                        lemma_bits_in_longer_palettes(
                            self.nodes.item(key),
                            bits,
                            self.dim(),
                            old_colors,
                            old_data,
                            self.voxel_color_palette@,
                            self.voxel_data_palette@,
                        );
                    },
                    _ => {},
                }
                if self.nodes.item(key) is Internal {
                    assert forall|sectant: int| 0 <= sectant < 64 implies #[trigger] self.link_ok(
                        key,
                        sectant,
                    ) by {
                        assert(old(self).link_ok(key, sectant));
                    }
                }
            }
            assert forall|key: int| self.nodes.valid(key) implies #[trigger] self.hangs_ok(key) by {
                assert(old(self).hangs_ok(key));
            }
        }
        Some(VoxelContent::pix_complex(color_index, data_index))
    }
}

} // verus!
