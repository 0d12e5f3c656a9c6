//! The byte representation of a tree: a header with the settings and the palettes, and
//! the nodes, each written with a tag for its kind, from the root down.
use vstd::prelude::*;
use crate::node::brick_volume;
use crate::tree::Contree;
use crate::types::{
    Albedo, ChunkData, PaletteIndexValues, VoxelChildren, VoxelContent, VoxelData, EMPTY_MARKER,
};

verus! {

/// The tag of a child that is missing.
pub const TAG_ABSENT: u8 = 0;

/// The tag of a node that holds nothing.
pub const TAG_NOTHING: u8 = 1;

/// The tag of a divided node; its sixty-four children follow.
pub const TAG_INTERNAL: u8 = 2;

/// The tag of a uniform leaf; its brick follows.
pub const TAG_UNIFORM: u8 = 3;

/// The tag of a leaf; its sixty-four bricks follow.
pub const TAG_LEAF: u8 = 4;

/// The tag of an empty brick.
pub const TAG_EMPTY: u8 = 0;

/// The tag of a solid brick; its value follows.
pub const TAG_SOLID: u8 = 1;

/// The tag of a brick that is a matrix; its values follow.
pub const TAG_PARTED: u8 = 2;

/// The byte of the given place, one of the lowest four, of a number.
pub open spec fn low_byte_of(number: int, place: int) -> u8 {
    if place == 0 {
        (number % 0x100) as u8
    } else if place == 1 {
        ((number / 0x100) % 0x100) as u8
    } else if place == 2 {
        ((number / 0x1_0000) % 0x100) as u8
    } else {
        ((number / 0x100_0000) % 0x100) as u8
    }
}

/// The byte of the given place of a number, the lowest byte first.
pub open spec fn byte_of(number: int, place: int) -> u8 {
    if place < 4 {
        low_byte_of(number, place)
    } else {
        low_byte_of(number / 0x1_0000_0000, place - 4)
    }
}

/// The lowest four bytes of a number give the number back, as far as it fits into them.
pub proof fn lemma_low_bytes(number: int)
    requires
        0 <= number,
    ensures
        low_byte_of(number, 0) + low_byte_of(number, 1) * 0x100 + low_byte_of(number, 2)
            * 0x1_0000 + low_byte_of(number, 3) * 0x100_0000 == number % 0x1_0000_0000,
{
    let q1 = number / 0x100;
    let q2 = q1 / 0x100;
    let q3 = q2 / 0x100;
    let q4 = q3 / 0x100;
    vstd::arithmetic::div_mod::lemma_div_denominator(number, 0x100, 0x100);
    vstd::arithmetic::div_mod::lemma_div_denominator(number, 0x1_0000, 0x100);
    assert(q2 == number / 0x1_0000);
    assert(q3 == number / 0x100_0000);
    let sum = number % 0x100 + (q1 % 0x100) * 0x100 + (q2 % 0x100) * 0x1_0000 + (q3 % 0x100)
        * 0x100_0000;
    assert(number == q4 * 0x1_0000_0000 + sum);
    vstd::arithmetic::div_mod::lemma_fundamental_div_mod_converse(
        number,
        0x1_0000_0000,
        q4,
        sum,
    );
}

/// The four bytes of a number, the lowest first.
pub open spec fn enc_u32(value: u32) -> Seq<u8> {
    Seq::new(4, |place: int| byte_of(value as int, place))
}

/// The eight bytes of a number, the lowest first.
pub open spec fn enc_u64(value: u64) -> Seq<u8> {
    Seq::new(8, |place: int| byte_of(value as int, place))
}

/// The bytes of a sequence of numbers, four for each.
pub open spec fn enc_values(values: Seq<u32>) -> Seq<u8> {
    Seq::new((4 * values.len()) as nat, |i: int| byte_of(values[i / 4] as int, i % 4))
}

/// The number whose four bytes stand in the sequence from the given place on.
pub open spec fn dec_u32(bytes: Seq<u8>, pos: int) -> int {
    bytes[pos] + bytes[pos + 1] * 0x100 + bytes[pos + 2] * 0x1_0000 + bytes[pos + 3] * 0x100_0000
}

/// The number whose eight bytes stand in the sequence from the given place on.
pub open spec fn dec_u64(bytes: Seq<u8>, pos: int) -> int {
    dec_u32(bytes, pos) + dec_u32(bytes, pos + 4) * 0x1_0000_0000
}

/// The bytes of a number give the number back.
pub proof fn lemma_u32_bytes(value: u32)
    ensures
        byte_of(value as int, 0) + byte_of(value as int, 1) * 0x100 + byte_of(value as int, 2)
            * 0x1_0000 + byte_of(value as int, 3) * 0x100_0000 == value,
{
    lemma_low_bytes(value as int);
}

/// The bytes of a number give the number back.
pub proof fn lemma_u64_bytes(value: u64)
    ensures
        byte_of(value as int, 0) + byte_of(value as int, 1) * 0x100 + byte_of(value as int, 2)
            * 0x1_0000 + byte_of(value as int, 3) * 0x100_0000 + (byte_of(value as int, 4)
            + byte_of(value as int, 5) * 0x100 + byte_of(value as int, 6) * 0x1_0000 + byte_of(
            value as int,
            7,
        ) * 0x100_0000) * 0x1_0000_0000 == value,
{
    lemma_low_bytes(value as int);
    lemma_low_bytes(value as int / 0x1_0000_0000);
}

/// Appends the four bytes of a number.
pub fn put_u32(out: &mut Vec<u8>, value: u32)
    ensures
        final(out)@ == old(out)@ + enc_u32(value),
{
    let ghost before = out@;
    out.push((value % 0x100) as u8);
    out.push(((value / 0x100) % 0x100) as u8);
    out.push(((value / 0x1_0000) % 0x100) as u8);
    out.push(((value / 0x100_0000) % 0x100) as u8);
    assert(out@ =~= before + enc_u32(value));
}

/// Appends the eight bytes of a number.
pub fn put_u64(out: &mut Vec<u8>, value: u64)
    ensures
        final(out)@ == old(out)@ + enc_u64(value),
{
    let ghost before = out@;
    let high: u64 = value / 0x1_0000_0000;
    out.push((value % 0x100) as u8);
    out.push(((value / 0x100) % 0x100) as u8);
    out.push(((value / 0x1_0000) % 0x100) as u8);
    out.push(((value / 0x100_0000) % 0x100) as u8);
    out.push((high % 0x100) as u8);
    out.push(((high / 0x100) % 0x100) as u8);
    out.push(((high / 0x1_0000) % 0x100) as u8);
    out.push(((high / 0x100_0000) % 0x100) as u8);
    assert(out@ =~= before + enc_u64(value));
}

/// Reads the number whose four bytes stand at the given place.
pub fn get_u32(bytes: &Vec<u8>, pos: usize) -> (r: Option<u32>)
    ensures
        r is Some <==> pos + 4 <= bytes.len(),
        r matches Some(value) ==> value == dec_u32(bytes@, pos as int),
{
    if bytes.len() < 4 || pos > bytes.len() - 4 {
        return None;
    }
    Some(
        (bytes[pos] as u32) + (bytes[pos + 1] as u32) * 0x100 + (bytes[pos + 2] as u32) * 0x1_0000
            + (bytes[pos + 3] as u32) * 0x100_0000,
    )
}

/// Reads the number whose eight bytes stand at the given place.
pub fn get_u64(bytes: &Vec<u8>, pos: usize) -> (r: Option<u64>)
    ensures
        r is Some <==> pos + 8 <= bytes.len(),
        r matches Some(value) ==> value == dec_u64(bytes@, pos as int),
{
    if bytes.len() < 8 || pos > bytes.len() - 8 {
        return None;
    }
    let low: u32 = match get_u32(bytes, pos) {
        Some(value) => value,
        None => {
            return None;
        },
    };
    let high: u32 = match get_u32(bytes, pos + 4) {
        Some(value) => value,
        None => {
            return None;
        },
    };
    Some((low as u64) + (high as u64) * 0x1_0000_0000)
}

/// The bytes of a brick: its tag, and its value or its values.
pub open spec fn enc_brick(brick: ChunkData) -> Seq<u8> {
    match brick {
        ChunkData::Empty => seq![TAG_EMPTY],
        ChunkData::Solid(voxel) => seq![TAG_SOLID] + enc_u32(voxel),
        ChunkData::Parted(values) => seq![TAG_PARTED] + enc_values(values@),
    }
}

/// The bytes of the bricks of a leaf from the given sectant on.
pub open spec fn enc_bricks(bricks: Seq<ChunkData>, from: int) -> Seq<u8>
    decreases bricks.len() - from,
{
    if from >= bricks.len() || from < 0 {
        Seq::empty()
    } else {
        enc_brick(bricks[from]) + enc_bricks(bricks, from + 1)
    }
}

/// Appends the bytes of a brick.
pub fn put_brick(out: &mut Vec<u8>, brick: &ChunkData)
    ensures
        final(out)@ == old(out)@ + enc_brick(*brick),
{
    let ghost before = out@;
    match brick {
        ChunkData::Empty => {
            out.push(TAG_EMPTY);
            assert(out@ =~= before + enc_brick(*brick));
        },
        ChunkData::Solid(voxel) => {
            out.push(TAG_SOLID);
            put_u32(out, *voxel);
            assert(out@ =~= before + enc_brick(*brick));
        },
        ChunkData::Parted(values) => {
            out.push(TAG_PARTED);
            let ghost tagged = out@;
            let mut i: usize = 0;
            while i < values.len()
                invariant
                    i <= values.len(),
                    tagged == before + seq![TAG_PARTED],
                    out@ == tagged + enc_values(values@.subrange(0, i as int)),
                decreases values.len() - i,
            {
                let ghost so_far = out@;
                put_u32(out, values[i]);
                assert(out@ =~= tagged + enc_values(values@.subrange(0, i + 1))) by {
                    assert(so_far == tagged + enc_values(values@.subrange(0, i as int)));
                    assert forall|j: int| 0 <= j < 4 * (i + 1) implies (enc_values(
                        values@.subrange(0, i as int),
                    ) + enc_u32(values[i as int]))[j] == enc_values(
                        values@.subrange(0, i + 1),
                    )[j] by {}
                    assert(enc_values(values@.subrange(0, i as int)) + enc_u32(values[i as int])
                        =~= enc_values(values@.subrange(0, i + 1)));
                }
                i += 1;
            }
            assert(values@.subrange(0, values.len() as int) =~= values@);
            assert(out@ =~= before + enc_brick(*brick));
        },
    }
}

impl<T: VoxelData> Contree<T> {
    /// The bytes of the node with the given key, whose cube has the given edge length: its
    /// tag, and its children or its bricks. A key that names no node gives the tag of a
    /// missing child.
    pub open spec fn enc_node(&self, key: int, size: int) -> Seq<u8>
        decreases size, 65int,
    {
        if !self.nodes.valid(key) {
            seq![TAG_ABSENT]
        } else {
            match self.nodes.item(key) {
                VoxelContent::Nothing => seq![TAG_NOTHING],
                VoxelContent::Internal(_) => if size >= 4 {
                    seq![TAG_INTERNAL] + self.enc_children(key, size, 0)
                } else {
                    seq![TAG_NOTHING]
                },
                VoxelContent::UniformLeaf(brick) => seq![TAG_UNIFORM] + enc_brick(brick),
                VoxelContent::Leaf(bricks) => seq![TAG_LEAF] + enc_bricks(bricks@, 0),
            }
        }
    }

    /// The bytes of the children of a divided node from the given sectant on.
    pub open spec fn enc_children(&self, key: int, size: int, from: int) -> Seq<u8>
        decreases size, 64 - from,
    {
        if from >= 64 || from < 0 || size < 4 {
            Seq::empty()
        } else {
            self.enc_node(self.node_children[key].child_key(from), size / 4) + self.enc_children(
                key,
                size,
                from + 1,
            )
        }
    }

    /// The bytes of the colors of the palette from the given index on, four for each.
    pub open spec fn enc_colors(colors: Seq<Albedo>, from: int) -> Seq<u8>
        decreases colors.len() - from,
    {
        if from >= colors.len() || from < 0 {
            Seq::empty()
        } else {
            seq![colors[from].r, colors[from].g, colors[from].b, colors[from].a]
                + Self::enc_colors(colors, from + 1)
        }
    }

    /// The bytes of the user data of the palette from the given index on, eight for each.
    pub open spec fn enc_data(data: Seq<T>, from: int) -> Seq<u8>
        decreases data.len() - from,
    {
        if from >= data.len() || from < 0 {
            Seq::empty()
        } else {
            enc_u64(data[from].number()) + Self::enc_data(data, from + 1)
        }
    }

    /// The bytes of the settings and the palettes of the tree.
    pub open spec fn enc_header(&self) -> Seq<u8> {
        seq![if self.auto_simplify {
            1u8
        } else {
            0u8
        }] + enc_u32(self.contree_size) + enc_u32(self.chunk_dim) + enc_u32(
            self.voxel_color_palette.len() as u32,
        ) + Self::enc_colors(self.voxel_color_palette@, 0) + enc_u32(
            self.voxel_data_palette.len() as u32,
        ) + Self::enc_data(self.voxel_data_palette@, 0)
    }

    /// The bytes of the tree: the header, and the nodes from the root down.
    pub open spec fn encoded(&self) -> Seq<u8> {
        self.enc_header() + self.enc_node(0, self.contree_size as int)
    }

    /// Appends the bytes of the node with the given key.
    pub fn encode_node(&self, key: usize, size: Ghost<int>, out: &mut Vec<u8>)
        requires
            self.wf(),
            self.nodes.valid(key as int) ==> size@ == self.node_bounds@[key as int].size,
            0 <= size@,
        ensures
            final(out)@ == old(out)@ + self.enc_node(key as int, size@),
        decreases size@,
    {
        let ghost before = out@;
        if !self.nodes.key_is_valid(key) {
            out.push(TAG_ABSENT);
            assert(out@ =~= before + self.enc_node(key as int, size@));
            return;
        }
        proof {
            assert(self.node_ok(key as int));
            crate::tree::lemma_power_of_two_positive(self.dim());
            crate::tree::lemma_node_size(size@, self.dim());
        }
        match self.nodes.get(key) {
            VoxelContent::Nothing => {
                out.push(TAG_NOTHING);
                assert(out@ =~= before + self.enc_node(key as int, size@));
            },
            VoxelContent::UniformLeaf(brick) => {
                out.push(TAG_UNIFORM);
                put_brick(out, brick);
                assert(out@ =~= before + self.enc_node(key as int, size@));
            },
            VoxelContent::Leaf(bricks) => {
                out.push(TAG_LEAF);
                let ghost tagged = out@;
                let mut sectant: usize = 0;
                while sectant < bricks.len()
                    invariant
                        sectant <= bricks.len(),
                        tagged == before + seq![TAG_LEAF],
                        out@ + enc_bricks(bricks@, sectant as int) == tagged + enc_bricks(
                            bricks@,
                            0,
                        ),
                    decreases bricks.len() - sectant,
                {
                    let ghost so_far = out@;
                    put_brick(out, &bricks[sectant]);
                    assert(out@ + enc_bricks(bricks@, sectant + 1) =~= so_far + enc_bricks(
                        bricks@,
                        sectant as int,
                    ));
                    sectant += 1;
                }
                assert(out@ =~= out@ + enc_bricks(bricks@, bricks.len() as int));
                assert(out@ =~= before + self.enc_node(key as int, size@));
            },
            VoxelContent::Internal(_) => {
                out.push(TAG_INTERNAL);
                let ghost tagged = out@;
                let mut sectant: u8 = 0;
                while sectant < 64
                    invariant
                        sectant <= 64,
                        self.wf(),
                        self.nodes.valid(key as int),
                        self.nodes.item(key as int) is Internal,
                        size@ == self.node_bounds@[key as int].size,
                        size@ >= 4,
                        tagged == before + seq![TAG_INTERNAL],
                        out@ + self.enc_children(key as int, size@, sectant as int) == tagged
                            + self.enc_children(key as int, size@, 0),
                    decreases 64 - sectant,
                {
                    let ghost so_far = out@;
                    proof {
                        assert(self.node_ok(key as int));
                        assert(self.link_ok(key as int, sectant as int));
                    }
                    let child: usize = self.node_children[key].child(sectant);
                    self.encode_node(child, Ghost(size@ / 4), out);
                    assert(out@ + self.enc_children(key as int, size@, sectant + 1) =~= so_far
                        + self.enc_children(key as int, size@, sectant as int));
                    sectant += 1;
                }
                assert(out@ =~= out@ + self.enc_children(key as int, size@, 64));
                assert(out@ =~= before + self.enc_node(key as int, size@));
            },
        }
    }

    /// Converts the tree to its byte representation.
    pub fn to_bytes(&self) -> (bytes: Vec<u8>)
        requires
            self.wf(),
        ensures
            bytes@ == self.encoded(),
    {
        let mut out: Vec<u8> = Vec::new();
        out.push(if self.auto_simplify {
            1
        } else {
            0
        });
        put_u32(&mut out, self.contree_size);
        put_u32(&mut out, self.chunk_dim);
        put_u32(&mut out, self.voxel_color_palette.len() as u32);
        let ghost start = out@;
        let mut i: usize = 0;
        while i < self.voxel_color_palette.len()
            invariant
                i <= self.voxel_color_palette.len(),
                out@ + Self::enc_colors(self.voxel_color_palette@, i as int) == start
                    + Self::enc_colors(self.voxel_color_palette@, 0),
            decreases self.voxel_color_palette.len() - i,
        {
            let ghost so_far = out@;
            let color: Albedo = self.voxel_color_palette[i];
            out.push(color.r);
            out.push(color.g);
            out.push(color.b);
            out.push(color.a);
            assert(out@ + Self::enc_colors(self.voxel_color_palette@, i + 1) =~= so_far
                + Self::enc_colors(self.voxel_color_palette@, i as int));
            i += 1;
        }
        assert(out@ =~= start + Self::enc_colors(self.voxel_color_palette@, 0)) by {
            assert(Self::enc_colors(
                self.voxel_color_palette@,
                self.voxel_color_palette.len() as int,
            ) =~= Seq::<u8>::empty());
        }
        put_u32(&mut out, self.voxel_data_palette.len() as u32);
        let ghost start_data = out@;
        let mut j: usize = 0;
        while j < self.voxel_data_palette.len()
            invariant
                j <= self.voxel_data_palette.len(),
                out@ + Self::enc_data(self.voxel_data_palette@, j as int) == start_data
                    + Self::enc_data(self.voxel_data_palette@, 0),
            decreases self.voxel_data_palette.len() - j,
        {
            let ghost so_far = out@;
            put_u64(&mut out, self.voxel_data_palette[j].to_number());
            assert(out@ + Self::enc_data(self.voxel_data_palette@, j + 1) =~= so_far
                + Self::enc_data(self.voxel_data_palette@, j as int));
            j += 1;
        }
        assert(out@ =~= start_data + Self::enc_data(self.voxel_data_palette@, 0)) by {
            assert(Self::enc_data(self.voxel_data_palette@, self.voxel_data_palette.len() as int)
                =~= Seq::<u8>::empty());
        }
        assert(out@ =~= self.enc_header());
        self.encode_node(Self::ROOT_NODE_KEY as usize, Ghost(self.contree_size as int), &mut out);
        out
    }
}

} // verus!
