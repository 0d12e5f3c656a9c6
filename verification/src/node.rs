//! Bricks, node contents and children descriptors.
use vstd::prelude::*;
use crate::bitmap::{bit_is_set, sectant_covered, set_occupied_bitmap_value, lemma_constant_bitmaps};
use crate::palette::{index_in_palettes, points_to_empty};
use crate::spatial::V3c;
use crate::types::{
    Albedo, ChunkData, PaletteIndexValues, VoxelChildren, VoxelContent, VoxelData, EMPTY_MARKER,
};

verus! {

/// The number of voxels in a brick of edge `dim`.
pub open spec fn brick_volume(dim: int) -> int {
    dim * dim * dim
}

/// A copy of the values.
pub fn copy_values(values: &Vec<PaletteIndexValues>) -> (r: Vec<PaletteIndexValues>)
    ensures
        r@ == values@,
{
    let mut r: Vec<PaletteIndexValues> = Vec::new();
    let mut i: usize = 0;
    while i < values.len()
        invariant
            i <= values.len(),
            r@ == values@.subrange(0, i as int),
        decreases values.len() - i,
    {
        r.push(values[i]);
        assert(r@ == values@.subrange(0, i + 1));
        i += 1;
    }
    assert(r@ == values@);
    r
}

/// A vector of `count` copies of the value.
pub fn filled_values(value: PaletteIndexValues, count: usize) -> (r: Vec<PaletteIndexValues>)
    ensures
        r.len() == count,
        forall|i: int| 0 <= i < count ==> r[i] == value,
{
    let mut r: Vec<PaletteIndexValues> = Vec::new();
    let mut i: usize = 0;
    while i < count
        invariant
            i <= count,
            r.len() == i,
            forall|j: int| 0 <= j < i ==> r[j] == value,
        decreases count - i,
    {
        r.push(value);
        i += 1;
    }
    r
}

impl VoxelChildren {
    /// The key stored for the sectant; the empty marker where the node keeps no child keys.
    pub open spec fn child_key(&self, sectant: int) -> int {
        match self {
            VoxelChildren::Children(c) => c[sectant] as int,
            _ => EMPTY_MARKER as int,
        }
    }

    /// The descriptor that a node without children and without content starts with.
    pub fn default() -> (r: Self)
        ensures
            r is NoChildren,
    {
        VoxelChildren::NoChildren
    }

    /// The key of the child in the given sectant, or the empty marker.
    pub fn child(&self, sectant: u8) -> (r: usize)
        requires
            sectant < 64,
        ensures
            r == self.child_key(sectant as int),
            r <= EMPTY_MARKER,
    {
        match &self {
            VoxelChildren::Children(c) => c[sectant as usize] as usize,
            _ => EMPTY_MARKER as usize,
        }
    }

    /// Stores the key of the child in the given sectant; a node without children gets its
    /// child keys first, all of them empty.
    pub fn set_child(&mut self, index: usize, key: u32)
        requires
            index < 64,
            !(*old(self) is OccupancyBitmap),
        ensures
            *final(self) is Children,
            forall|s: int|
                0 <= s < 64 ==> final(self).child_key(s) == (if s == index {
                    key as int
                } else {
                    old(self).child_key(s)
                }),
    {
        if let VoxelChildren::NoChildren = self {
            *self = VoxelChildren::Children([EMPTY_MARKER;64]);
        }
        match self {
            VoxelChildren::Children(c) => {
                c[index] = key;
            },
            _ => {},
        }
    }

    /// The keys of the children, if the node keeps any.
    pub fn iter(&self) -> (r: Option<Vec<u32>>)
        ensures
            match r {
                Some(keys) => *self is Children && keys.len() == 64 && forall|s: int|
                    0 <= s < 64 ==> keys[s] as int == self.child_key(s),
                None => !(*self is Children),
            },
    {
        match &self {
            VoxelChildren::Children(c) => {
                let mut keys: Vec<u32> = Vec::new();
                let mut s: usize = 0;
                while s < 64
                    invariant
                        s <= 64,
                        keys.len() == s,
                        forall|j: int| 0 <= j < s ==> keys[j] == c[j],
                    decreases 64 - s,
                {
                    keys.push(c[s]);
                    s += 1;
                }
                Some(keys)
            },
            _ => None,
        }
    }

    /// Erases the key of the child in the given sectant; a node whose child keys are all
    /// empty afterwards has no children.
    pub fn clear(&mut self, child_index: usize)
        requires
            child_index < 64,
        ensures
            !(*old(self) is Children) ==> *final(self) == *old(self),
            *old(self) is Children ==> {
                &&& forall|s: int|
                    0 <= s < 64 ==> final(self).child_key(s) == (if s == child_index {
                        EMPTY_MARKER as int
                    } else {
                        old(self).child_key(s)
                    })
                &&& (*final(self) is NoChildren || *final(self) is Children)
                &&& *final(self) is NoChildren <==> forall|s: int|
                    0 <= s < 64 && s != child_index ==> old(self).child_key(s) == EMPTY_MARKER
            },
    {
        if let VoxelChildren::Children(c) = self {
            let mut keys: [u32; 64] = *c;
            keys[child_index] = EMPTY_MARKER;
            let mut all_empty: bool = true;
            let mut s: usize = 0;
            while s < 64
                invariant
                    s <= 64,
                    all_empty <==> forall|j: int| 0 <= j < s ==> keys[j] == EMPTY_MARKER,
                decreases 64 - s,
            {
                if keys[s] != EMPTY_MARKER {
                    all_empty = false;
                }
                s += 1;
            }
            if all_empty {
                assert forall|j: int| 0 <= j < 64
                    && j != child_index implies old(self).child_key(j) == EMPTY_MARKER by {
                    assert(keys[j] == EMPTY_MARKER);
                }
                *self = VoxelChildren::NoChildren;
            } else {
                let ghost w = choose|j: int| 0 <= j < 64 && keys[j] != EMPTY_MARKER;
                assert(w != child_index && old(self).child_key(w) != EMPTY_MARKER);
                *self = VoxelChildren::Children(keys);
            }
        }
    }
}

impl ChunkData {
    /// A parted brick holds one value for each voxel of a brick of edge `dim`.
    pub open spec fn wf(&self, dim: int) -> bool {
        self matches ChunkData::Parted(brick) ==> brick.len() == brick_volume(dim)
    }

    /// Every value of the brick refers to entries that the palettes hold.
    pub open spec fn in_palettes(&self, colors: int, data: int) -> bool {
        match self {
            ChunkData::Empty => true,
            ChunkData::Solid(voxel) => index_in_palettes(*voxel, colors, data),
            ChunkData::Parted(brick) => forall|i: int|
                0 <= i < brick.len() ==> index_in_palettes(#[trigger] brick[i], colors, data),
        }
    }

    /// The value of the brick at the flat matrix index.
    pub open spec fn value_at(&self, index: int) -> PaletteIndexValues {
        match self {
            ChunkData::Empty => EMPTY_MARKER,
            ChunkData::Solid(voxel) => *voxel,
            ChunkData::Parted(brick) => brick[index],
        }
    }

    /// The two bricks are of the same kind and hold the same values.
    pub open spec fn same_as(&self, other: &ChunkData) -> bool {
        match (self, other) {
            (ChunkData::Empty, ChunkData::Empty) => true,
            (ChunkData::Solid(a), ChunkData::Solid(b)) => a == b,
            (ChunkData::Parted(a), ChunkData::Parted(b)) => a@ =~= b@,
            _ => false,
        }
    }

    /// The one value that the whole brick holds, if there is one. An empty brick has none.
    pub open spec fn homogeneous(&self) -> Option<PaletteIndexValues> {
        match self {
            ChunkData::Empty => None,
            ChunkData::Solid(voxel) => Some(*voxel),
            ChunkData::Parted(brick) => if forall|i: int|
                0 <= i < brick.len() ==> #[trigger] brick[i] == brick[0] {
                Some(brick[0])
            } else {
                None
            },
        }
    }

    /// Nothing in the brick is to be shown or told.
    pub open spec fn nothing<V: VoxelData>(&self, colors: Seq<Albedo>, data: Seq<V>) -> bool {
        match self {
            ChunkData::Empty => true,
            ChunkData::Solid(voxel) => points_to_empty(*voxel, colors, data),
            ChunkData::Parted(brick) => forall|i: int|
                0 <= i < brick.len() ==> points_to_empty(#[trigger] brick[i], colors, data),
        }
    }

    /// The cell of the flat index `cell` holds something and lies in the part of the brick
    /// that the sectant stands for.
    pub open spec fn cell_marks<V: VoxelData>(
        chunk: Seq<PaletteIndexValues>,
        dim: int,
        colors: Seq<Albedo>,
        data: Seq<V>,
        sectant: int,
        cell: int,
    ) -> bool {
        &&& !points_to_empty(chunk[cell], colors, data)
        &&& sectant_covered(sectant, cell % dim, (cell / dim) % dim, cell / (dim * dim), 1, dim)
    }

    /// Bricks of the same kind and values agree in all that is said of them.
    pub proof fn lemma_same_as(a: ChunkData, b: ChunkData)
        requires
            a.same_as(&b),
        ensures
            forall|dim: int| a.wf(dim) == b.wf(dim),
            forall|c: int, d: int| a.in_palettes(c, d) == b.in_palettes(c, d),
            forall|i: int| a.value_at(i) == b.value_at(i),
            a.homogeneous() == b.homogeneous(),
            a.nonempty() == b.nonempty(),
    {
        match (a, b) {
            (ChunkData::Parted(x), ChunkData::Parted(y)) => {
                assert(x@ == y@);
                assert forall|c: int, d: int| a.in_palettes(c, d) == b.in_palettes(c, d) by {
                    if a.in_palettes(c, d) {
                        assert forall|i: int| 0 <= i < y.len() implies index_in_palettes(
                            #[trigger] y[i],
                            c,
                            d,
                        ) by {
                            assert(x[i] == y[i]);
                        }
                    }
                    if b.in_palettes(c, d) {
                        assert forall|i: int| 0 <= i < x.len() implies index_in_palettes(
                            #[trigger] x[i],
                            c,
                            d,
                        ) by {
                            assert(x[i] == y[i]);
                        }
                    }
                }
                assert(a.homogeneous() == b.homogeneous()) by {
                    if a.homogeneous().is_some() {
                        assert forall|i: int| 0 <= i < y.len() implies #[trigger] y[i] == y[0] by {
                            assert(x[i] == x[0]);
                        }
                    }
                    if b.homogeneous().is_some() {
                        assert forall|i: int| 0 <= i < x.len() implies #[trigger] x[i] == x[0] by {
                            assert(y[i] == y[0]);
                        }
                    }
                }
            },
            _ => {},
        }
    }

    /// A parted brick holds at least one value.
    pub open spec fn nonempty(&self) -> bool {
        self matches ChunkData::Parted(brick) ==> brick.len() > 0
    }

    /// A copy of the brick.
    pub fn duplicate(&self) -> (r: Self)
        ensures
            r.same_as(self),
    {
        match self {
            ChunkData::Empty => ChunkData::Empty,
            ChunkData::Solid(voxel) => ChunkData::Solid(*voxel),
            ChunkData::Parted(brick) => ChunkData::Parted(copy_values(brick)),
        }
    }

    /// Tells whether the two bricks are of the same kind and hold the same values.
    pub fn equals(&self, other: &ChunkData) -> (r: bool)
        ensures
            r == self.same_as(other),
    {
        match (self, other) {
            (ChunkData::Empty, ChunkData::Empty) => true,
            (ChunkData::Solid(a), ChunkData::Solid(b)) => *a == *b,
            (ChunkData::Parted(a), ChunkData::Parted(b)) => {
                if a.len() != b.len() {
                    return false;
                }
                let mut i: usize = 0;
                while i < a.len()
                    invariant
                        i <= a.len(),
                        a.len() == b.len(),
                        *self == ChunkData::Parted(*a),
                        *other == ChunkData::Parted(*b),
                        forall|j: int| 0 <= j < i ==> a[j] == b[j],
                    decreases a.len() - i,
                {
                    if a[i] != b[i] {
                        assert(a@[i as int] != b@[i as int]);
                        return false;
                    }
                    i += 1;
                }
                true
            },
            _ => false,
        }
    }

    /// Calculates the occupancy bitmap of a matrix of voxels: a bit is set if and only if a
    /// voxel that holds something lies in the part of the brick that the bit stands for.
    pub fn calculate_chunk_occupied_bits<V: VoxelData>(
        chunk: &Vec<PaletteIndexValues>,
        chunk_dimension: usize,
        color_palette: &Vec<Albedo>,
        data_palette: &Vec<V>,
    ) -> (bitmap: u64)
        requires
            chunk_dimension == 1 || chunk_dimension == 2 || chunk_dimension >= 4,
            chunk.len() == brick_volume(chunk_dimension as int),
            forall|i: int|
                0 <= i < chunk.len() ==> index_in_palettes(
                    #[trigger] chunk[i],
                    color_palette.len() as int,
                    data_palette.len() as int,
                ),
        ensures
            forall|j: int|
                0 <= j < 64 ==> (bit_is_set(bitmap, j) <==> exists|cell: int|
                    0 <= cell < chunk.len() && Self::cell_marks(
                        chunk@,
                        chunk_dimension as int,
                        color_palette@,
                        data_palette@,
                        j,
                        cell,
                    )),
    {
        let mut bitmap: u64 = 0;
        let mut cell: usize = 0;
        let ghost dim = chunk_dimension as int;
        proof {
            assert forall|j: int| 0 <= j < 64 implies !bit_is_set(0u64, j) by {
                lemma_constant_bitmaps(j);
            }
        }
        while cell < chunk.len()
            invariant
                cell <= chunk.len(),
                dim == chunk_dimension,
                chunk_dimension == 1 || chunk_dimension == 2 || chunk_dimension >= 4,
                chunk.len() == brick_volume(dim),
                forall|i: int|
                    0 <= i < chunk.len() ==> index_in_palettes(
                        #[trigger] chunk[i],
                        color_palette.len() as int,
                        data_palette.len() as int,
                    ),
                forall|j: int|
                    0 <= j < 64 ==> (bit_is_set(bitmap, j) <==> exists|c: int|
                        0 <= c < cell && Self::cell_marks(
                            chunk@,
                            dim,
                            color_palette@,
                            data_palette@,
                            j,
                            c,
                        )),
            decreases chunk.len() - cell,
        {
            let ghost before = bitmap;
            if !VoxelContent::pix_points_to_empty(&chunk[cell], color_palette, data_palette) {
                let x: usize = cell % chunk_dimension;
                let y: usize = (cell / chunk_dimension) % chunk_dimension;
                let z: usize = cell / chunk_dimension / chunk_dimension;
                proof {
                    assert(cell / chunk_dimension / chunk_dimension == (cell as int) / (dim * dim)
                        && (cell as int) / (dim * dim) < dim) by (nonlinear_arith)
                        requires
                            0 <= cell < dim * dim * dim,
                            dim > 0,
                            dim == chunk_dimension,
                    ;
                }
                set_occupied_bitmap_value(
                    &V3c { x, y, z },
                    1,
                    chunk_dimension,
                    true,
                    &mut bitmap,
                );
            }
            proof {
                let c0 = cell as int;
                assert forall|j: int| 0 <= j < 64 implies (bit_is_set(bitmap, j) <==> exists|
                    c: int,
                |
                    0 <= c < cell + 1 && Self::cell_marks(
                        chunk@,
                        dim,
                        color_palette@,
                        data_palette@,
                        j,
                        c,
                    )) by {
                    let marks = Self::cell_marks(
                        chunk@,
                        dim,
                        color_palette@,
                        data_palette@,
                        j,
                        c0,
                    );
                    assert(bit_is_set(bitmap, j) == (marks || bit_is_set(before, j)));
                    if bit_is_set(before, j) {
                        let c = choose|c: int|
                            0 <= c < cell && Self::cell_marks(
                                chunk@,
                                dim,
                                color_palette@,
                                data_palette@,
                                j,
                                c,
                            );
                        assert(0 <= c < cell + 1);
                    }
                    if exists|c: int|
                        0 <= c < cell + 1 && Self::cell_marks(
                            chunk@,
                            dim,
                            color_palette@,
                            data_palette@,
                            j,
                            c,
                        ) {
                        let c = choose|c: int|
                            0 <= c < cell + 1 && Self::cell_marks(
                                chunk@,
                                dim,
                                color_palette@,
                                data_palette@,
                                j,
                                c,
                            );
                        if c != c0 {
                            assert(0 <= c < cell);
                        }
                    }
                }
            }
            cell += 1;
        }
        bitmap
    }

    /// The bitmap is the occupancy bitmap of the brick: empty for a brick that shows and tells
    /// nothing, full for a solid brick that does; for a matrix, a bit is set if and only if a
    /// voxel that holds something lies in the part of the brick that the bit stands for.
    pub open spec fn occupied_bits_are<V: VoxelData>(
        &self,
        bitmap: u64,
        dim: int,
        colors: Seq<Albedo>,
        data: Seq<V>,
    ) -> bool {
        match self {
            ChunkData::Empty => bitmap == 0,
            ChunkData::Solid(voxel) => bitmap == (if points_to_empty(*voxel, colors, data) {
                0
            } else {
                u64::MAX
            }),
            ChunkData::Parted(chunk) => forall|j: int|
                0 <= j < 64 ==> (bit_is_set(bitmap, j) <==> exists|cell: int|
                    0 <= cell < chunk.len()
                        && Self::cell_marks(chunk@, dim, colors, data, j, cell)),
        }
    }

    /// The occupancy bitmap of the brick.
    pub fn calculate_occupied_bits<V: VoxelData>(
        &self,
        chunk_dimension: usize,
        color_palette: &Vec<Albedo>,
        data_palette: &Vec<V>,
    ) -> (bitmap: u64)
        requires
            chunk_dimension == 1 || chunk_dimension == 2 || chunk_dimension >= 4,
            self.wf(chunk_dimension as int),
            self.in_palettes(color_palette.len() as int, data_palette.len() as int),
        ensures
            self.occupied_bits_are(bitmap, chunk_dimension as int, color_palette@, data_palette@),
    {
        match self {
            ChunkData::Empty => 0,
            ChunkData::Solid(voxel) => {
                if VoxelContent::pix_points_to_empty(voxel, color_palette, data_palette) {
                    0
                } else {
                    u64::MAX
                }
            },
            ChunkData::Parted(chunk) => Self::calculate_chunk_occupied_bits(
                chunk,
                chunk_dimension,
                color_palette,
                data_palette,
            ),
        }
    }

    /// In case all contained voxels are the same, returns that value.
    pub fn get_homogeneous_data(&self) -> (r: Option<PaletteIndexValues>)
        requires
            self.nonempty(),
        ensures
            r == self.homogeneous(),
    {
        match self {
            ChunkData::Empty => None,
            ChunkData::Solid(voxel) => Some(*voxel),
            ChunkData::Parted(chunk) => {
                let mut i: usize = 0;
                while i < chunk.len()
                    invariant
                        i <= chunk.len(),
                        chunk.len() > 0,
                        *self == ChunkData::Parted(*chunk),
                        forall|j: int| 0 <= j < i ==> #[trigger] chunk[j] == chunk[0],
                    decreases chunk.len() - i,
                {
                    if chunk[i] != chunk[0] {
                        assert(chunk@[i as int] != chunk@[0]);
                        return None;
                    }
                    i += 1;
                }
                Some(chunk[0])
            },
        }
    }

    /// Tells whether nothing in the brick is to be shown or told.
    pub fn contains_nothing<V: VoxelData>(
        &self,
        color_palette: &Vec<Albedo>,
        data_palette: &Vec<V>,
    ) -> (r: bool)
        requires
            self.in_palettes(color_palette.len() as int, data_palette.len() as int),
        ensures
            r == self.nothing(color_palette@, data_palette@),
    {
        match self {
            ChunkData::Empty => true,
            ChunkData::Solid(voxel) => {
                VoxelContent::pix_points_to_empty(voxel, color_palette, data_palette)
            },
            ChunkData::Parted(chunk) => {
                let mut i: usize = 0;
                while i < chunk.len()
                    invariant
                        i <= chunk.len(),
                        *self == ChunkData::Parted(*chunk),
                        forall|j: int|
                            0 <= j < chunk.len() ==> index_in_palettes(
                                #[trigger] chunk[j],
                                color_palette.len() as int,
                                data_palette.len() as int,
                            ),
                        forall|j: int|
                            0 <= j < i ==> points_to_empty(
                                #[trigger] chunk[j],
                                color_palette@,
                                data_palette@,
                            ),
                    decreases chunk.len() - i,
                {
                    if !VoxelContent::pix_points_to_empty(&chunk[i], color_palette, data_palette) {
                        assert(*self matches ChunkData::Parted(brick) && 0 <= i < brick.len()
                            && !points_to_empty(brick[i as int], color_palette@, data_palette@));
                        return false;
                    }
                    i += 1;
                }
                true
            },
        }
    }

    /// Tries to simplify the brick: one whose voxels all hold the same value becomes solid,
    /// or empty where that value shows and tells nothing. Returns true if the brick holds one
    /// value only.
    pub fn simplify<V: VoxelData>(
        &mut self,
        color_palette: &Vec<Albedo>,
        data_palette: &Vec<V>,
    ) -> (r: bool)
        requires
            old(self).nonempty(),
            old(self).in_palettes(color_palette.len() as int, data_palette.len() as int),
        ensures
            r == old(self).homogeneous().is_some(),
            match old(self).homogeneous() {
                Some(voxel) => *final(self) == (if points_to_empty(
                    voxel,
                    color_palette@,
                    data_palette@,
                ) {
                    ChunkData::Empty
                } else {
                    ChunkData::Solid(voxel)
                }),
                None => *final(self) == *old(self),
            },
    {
        if let Some(homogeneous_type) = self.get_homogeneous_data() {
            if VoxelContent::pix_points_to_empty(&homogeneous_type, color_palette, data_palette) {
                *self = ChunkData::Empty;
            } else {
                *self = ChunkData::Solid(homogeneous_type);
            }
            true
        } else {
            false
        }
    }
}

impl VoxelContent {
    /// A leaf holds sixty-four bricks, and every parted brick holds one value for each voxel.
    pub open spec fn wf(&self, dim: int) -> bool {
        match self {
            VoxelContent::Nothing => true,
            VoxelContent::Internal(_) => true,
            VoxelContent::Leaf(bricks) => bricks.len() == 64 && forall|s: int|
                0 <= s < 64 ==> (#[trigger] bricks[s]).wf(dim),
            VoxelContent::UniformLeaf(brick) => brick.wf(dim),
        }
    }

    /// Every value of the content refers to entries that the palettes hold.
    pub open spec fn in_palettes(&self, colors: int, data: int) -> bool {
        match self {
            VoxelContent::Nothing => true,
            VoxelContent::Internal(_) => true,
            VoxelContent::Leaf(bricks) => forall|s: int|
                0 <= s < bricks.len() ==> (#[trigger] bricks[s]).in_palettes(colors, data),
            VoxelContent::UniformLeaf(brick) => brick.in_palettes(colors, data),
        }
    }

    /// The content holds bricks rather than children or nothing.
    pub open spec fn is_leaf_kind(&self) -> bool {
        *self is Leaf || *self is UniformLeaf
    }

    /// The content holds nothing to show or to tell. A divided node never counts as empty.
    pub open spec fn empty<V: VoxelData>(&self, colors: Seq<Albedo>, data: Seq<V>) -> bool {
        match self {
            VoxelContent::Nothing => true,
            VoxelContent::Internal(_) => false,
            VoxelContent::Leaf(bricks) => forall|s: int|
                0 <= s < bricks.len() ==> (#[trigger] bricks[s]).nothing(colors, data),
            VoxelContent::UniformLeaf(brick) => brick.nothing(colors, data),
        }
    }

    /// Every brick of the content holds the given value and no other.
    pub open spec fn all_of(&self, value: PaletteIndexValues) -> bool {
        match self {
            VoxelContent::Nothing => false,
            VoxelContent::Internal(_) => false,
            VoxelContent::Leaf(bricks) => forall|s: int|
                0 <= s < bricks.len() ==> (#[trigger] bricks[s]).homogeneous() == Some(value),
            VoxelContent::UniformLeaf(brick) => brick.homogeneous() == Some(value),
        }
    }

    /// The two contents are of the same kind and hold the same bricks. Divided nodes are
    /// never the same.
    pub open spec fn same_as(&self, other: &VoxelContent) -> bool {
        match (self, other) {
            (VoxelContent::Nothing, VoxelContent::Nothing) => true,
            (VoxelContent::UniformLeaf(a), VoxelContent::UniformLeaf(b)) => a.same_as(b),
            (VoxelContent::Leaf(a), VoxelContent::Leaf(b)) => a.len() == b.len() && forall|
                s: int,
            | 0 <= s < a.len() ==> (#[trigger] a[s]).same_as(&b[s]),
            _ => false,
        }
    }

    /// Every parted brick of the content holds at least one value.
    pub open spec fn nonempty(&self) -> bool {
        match self {
            VoxelContent::Leaf(bricks) => forall|s: int|
                0 <= s < bricks.len() ==> (#[trigger] bricks[s]).nonempty(),
            VoxelContent::UniformLeaf(brick) => brick.nonempty(),
            _ => true,
        }
    }

    /// Contents of the same kind and bricks are well formed together and refer to the same
    /// palette entries.
    pub proof fn lemma_same_as(a: VoxelContent, b: VoxelContent, dim: int, colors: int, data: int)
        requires
            a.same_as(&b),
        ensures
            a.wf(dim) == b.wf(dim),
            a.in_palettes(colors, data) == b.in_palettes(colors, data),
    {
        match (a, b) {
            (VoxelContent::UniformLeaf(x), VoxelContent::UniformLeaf(y)) => {
                ChunkData::lemma_same_as(x, y);
            },
            (VoxelContent::Leaf(x), VoxelContent::Leaf(y)) => {
                assert forall|s: int| 0 <= s < x.len() implies (#[trigger] x[s]).wf(dim)
                    == y[s].wf(dim) && x[s].in_palettes(colors, data) == y[s].in_palettes(
                    colors,
                    data,
                ) by {
                    assert(x[s].same_as(&y[s]));
                    ChunkData::lemma_same_as(x[s], y[s]);
                }
                if a.wf(dim) {
                    assert forall|s: int| 0 <= s < 64 implies (#[trigger] y[s]).wf(dim) by {
                        assert(x[s].wf(dim));
                    }
                }
                if b.wf(dim) {
                    assert forall|s: int| 0 <= s < 64 implies (#[trigger] x[s]).wf(dim) by {
                        assert(y[s].wf(dim));
                    }
                }
                if a.in_palettes(colors, data) {
                    assert forall|s: int| 0 <= s < y.len() implies (#[trigger] y[s]).in_palettes(
                        colors,
                        data,
                    ) by {
                        assert(x[s].in_palettes(colors, data));
                    }
                }
                if b.in_palettes(colors, data) {
                    assert forall|s: int| 0 <= s < x.len() implies (#[trigger] x[s]).in_palettes(
                        colors,
                        data,
                    ) by {
                        assert(y[s].in_palettes(colors, data));
                    }
                }
            },
            _ => {},
        }
    }

    /// A copy of the content.
    pub fn duplicate(&self) -> (r: Self)
        ensures
            r.same_as(self) || (*self is Internal && r == *self),
    {
        match self {
            VoxelContent::Nothing => VoxelContent::Nothing,
            VoxelContent::Internal(bits) => VoxelContent::Internal(*bits),
            VoxelContent::UniformLeaf(brick) => VoxelContent::UniformLeaf(brick.duplicate()),
            VoxelContent::Leaf(bricks) => {
                let mut copies: Vec<ChunkData> = Vec::new();
                let mut s: usize = 0;
                while s < bricks.len()
                    invariant
                        s <= bricks.len(),
                        copies.len() == s,
                        forall|j: int| 0 <= j < s ==> (#[trigger] copies[j]).same_as(&bricks[j]),
                    decreases bricks.len() - s,
                {
                    copies.push(bricks[s].duplicate());
                    s += 1;
                }
                VoxelContent::Leaf(copies)
            },
        }
    }

    /// Tells whether the content holds nothing to show or to tell.
    pub fn is_empty<V: VoxelData>(
        &self,
        color_palette: &Vec<Albedo>,
        data_palette: &Vec<V>,
    ) -> (r: bool)
        requires
            self.in_palettes(color_palette.len() as int, data_palette.len() as int),
        ensures
            r == self.empty(color_palette@, data_palette@),
    {
        match self {
            VoxelContent::UniformLeaf(chunk) => chunk.contains_nothing(
                color_palette,
                data_palette,
            ),
            VoxelContent::Leaf(chunks) => {
                let mut s: usize = 0;
                while s < chunks.len()
                    invariant
                        s <= chunks.len(),
                        *self == VoxelContent::Leaf(*chunks),
                        self.in_palettes(color_palette.len() as int, data_palette.len() as int),
                        forall|j: int|
                            0 <= j < s ==> (#[trigger] chunks[j]).nothing(
                                color_palette@,
                                data_palette@,
                            ),
                    decreases chunks.len() - s,
                {
                    assert(chunks[s as int].in_palettes(
                        color_palette.len() as int,
                        data_palette.len() as int,
                    ));
                    if !chunks[s].contains_nothing(color_palette, data_palette) {
                        assert(*self matches VoxelContent::Leaf(bricks) && 0 <= s < bricks.len()
                            && !bricks[s as int].nothing(color_palette@, data_palette@));
                        return false;
                    }
                    s += 1;
                }
                true
            },
            VoxelContent::Internal(_) => false,
            VoxelContent::Nothing => true,
        }
    }

    /// Tells whether every brick of the content holds the given value and no other.
    pub fn is_all(&self, data: &PaletteIndexValues) -> (r: bool)
        requires
            self.nonempty(),
        ensures
            r == self.all_of(*data),
    {
        match self {
            VoxelContent::UniformLeaf(chunk) => {
                match chunk.get_homogeneous_data() {
                    Some(value) => value == *data,
                    None => false,
                }
            },
            VoxelContent::Leaf(chunks) => {
                let mut s: usize = 0;
                while s < chunks.len()
                    invariant
                        s <= chunks.len(),
                        *self == VoxelContent::Leaf(*chunks),
                        self.nonempty(),
                        forall|j: int|
                            0 <= j < s ==> (#[trigger] chunks[j]).homogeneous() == Some(*data),
                    decreases chunks.len() - s,
                {
                    assert(chunks[s as int].nonempty());
                    let matches_data: bool = match chunks[s].get_homogeneous_data() {
                        Some(value) => value == *data,
                        None => false,
                    };
                    if !matches_data {
                        assert(*self matches VoxelContent::Leaf(bricks) && 0 <= s < bricks.len()
                            && bricks[s as int].homogeneous() != Some(*data));
                        return false;
                    }
                    s += 1;
                }
                true
            },
            VoxelContent::Internal(_) | VoxelContent::Nothing => false,
        }
    }

    /// Tells whether the two contents are of the same kind and hold the same bricks.
    pub fn compare(&self, other: &VoxelContent) -> (r: bool)
        ensures
            r == self.same_as(other),
    {
        match self {
            VoxelContent::Nothing => match other {
                VoxelContent::Nothing => true,
                _ => false,
            },
            VoxelContent::Internal(_) => false,
            VoxelContent::UniformLeaf(chunk) => {
                if let VoxelContent::UniformLeaf(ochunk) = other {
                    chunk.equals(ochunk)
                } else {
                    false
                }
            },
            VoxelContent::Leaf(chunks) => {
                if let VoxelContent::Leaf(ochunks) = other {
                    if chunks.len() != ochunks.len() {
                        return false;
                    }
                    let mut s: usize = 0;
                    while s < chunks.len()
                        invariant
                            s <= chunks.len(),
                            chunks.len() == ochunks.len(),
                            *self == VoxelContent::Leaf(*chunks),
                            *other == VoxelContent::Leaf(*ochunks),
                            forall|j: int|
                                0 <= j < s ==> (#[trigger] chunks[j]).same_as(&ochunks[j]),
                        decreases chunks.len() - s,
                    {
                        if !chunks[s].equals(&ochunks[s]) {
                            assert(*self matches VoxelContent::Leaf(a)
                                && *other matches VoxelContent::Leaf(
                                b,
                            ) && !a[s as int].same_as(&b[s as int]));
                            return false;
                        }
                        s += 1;
                    }
                    true
                } else {
                    false
                }
            },
        }
    }
}

} // verus!
