//! Reading a tree from its byte representation: the header, the palettes, and the nodes.
use vstd::prelude::*;
use crate::bytecode::{
    byte_of, dec_u32, dec_u64, enc_u32, enc_u64, get_u32, get_u64, lemma_u64_bytes,
};
use crate::decode::{has_at, lemma_has_at_concat, lemma_has_u32};
use crate::palette_store::{find_color, find_data};
use crate::spatial::Cube;
use crate::tree::{
    brick_dimension_ok, is_power_of_four, lemma_node_size, lemma_power_of_two_positive,
    node_size_ok, tree_size_fits, Contree,
};
use crate::types::{Albedo, VoxelData, NO_INDEX};

verus! {

/// The eight bytes of a number, standing at a place, are read as that number.
pub proof fn lemma_has_u64(bytes: Seq<u8>, pos: int, value: u64)
    requires
        has_at(bytes, pos, enc_u64(value)),
    ensures
        dec_u64(bytes, pos) == value,
        pos + 8 <= bytes.len(),
{
    lemma_u64_bytes(value);
    assert(enc_u64(value)[0] == byte_of(value as int, 0));
    assert(enc_u64(value)[1] == byte_of(value as int, 1));
    assert(enc_u64(value)[2] == byte_of(value as int, 2));
    assert(enc_u64(value)[3] == byte_of(value as int, 3));
    assert(enc_u64(value)[4] == byte_of(value as int, 4));
    assert(enc_u64(value)[5] == byte_of(value as int, 5));
    assert(enc_u64(value)[6] == byte_of(value as int, 6));
    assert(enc_u64(value)[7] == byte_of(value as int, 7));
}

/// The edge length of a node is the brick dimension times a power of four.
pub proof fn lemma_node_size_fits(size: int, dim: int)
    requires
        node_size_ok(size, dim),
        dim >= 1,
    ensures
        tree_size_fits(size, dim),
        size >= 4 * dim,
    decreases size,
{
    crate::flatness::lemma_size_multiple(size, dim);
    lemma_node_size(size, dim);
    if size == 4 * dim {
        assert((4 * dim) / dim == 4) by (nonlinear_arith)
            requires
                dim >= 1,
        ;
        assert(is_power_of_four(1));
        assert(is_power_of_four(4));
    } else {
        lemma_node_size_fits(size / 4, dim);
        let quarter = size / 4;
        let ratio = quarter / dim;
        assert(quarter == ratio * dim) by (nonlinear_arith)
            requires
                quarter % dim == 0,
                ratio == quarter / dim,
                dim >= 1,
        ;
        assert(size == (4 * ratio) * dim) by (nonlinear_arith)
            requires
                size == 4 * quarter,
                quarter == ratio * dim,
        ;
        vstd::arithmetic::div_mod::lemma_fundamental_div_mod_converse(size, dim, 4 * ratio, 0);
        assert(ratio >= 1) by (nonlinear_arith)
            requires
                quarter == ratio * dim,
                quarter >= dim,
                dim >= 1,
        ;
        assert((4 * ratio) / 4 == ratio && (4 * ratio) % 4 == 0);
    }
}

impl<T: VoxelData> Contree<T> {
    /// The bytes of the colors of a palette are four for each.
    pub proof fn lemma_enc_colors_len(colors: Seq<Albedo>, from: int)
        requires
            0 <= from <= colors.len(),
        ensures
            Self::enc_colors(colors, from).len() == 4 * (colors.len() - from),
        decreases colors.len() - from,
    {
        if from < colors.len() {
            Self::lemma_enc_colors_len(colors, from + 1);
        }
    }

    /// The bytes of the user data of a palette are eight for each.
    pub proof fn lemma_enc_data_len(data: Seq<T>, from: int)
        requires
            0 <= from <= data.len(),
        ensures
            Self::enc_data(data, from).len() == 8 * (data.len() - from),
        decreases data.len() - from,
    {
        if from < data.len() {
            Self::lemma_enc_data_len(data, from + 1);
        }
    }

    /// The place of the count of the user data in the bytes of the tree.
    pub open spec fn data_count_place(&self) -> int {
        13 + 4 * self.voxel_color_palette.len()
    }

    /// The place of the nodes in the bytes of the tree.
    pub open spec fn nodes_place(&self) -> int {
        17 + 4 * self.voxel_color_palette.len() + 8 * self.voxel_data_palette.len()
    }

    /// The parts of the bytes of a tree stand in them one after the other.
    pub proof fn lemma_encoded_parts(&self, bytes: Seq<u8>)
        requires
            self.wf(),
            bytes == self.encoded(),
        ensures
            bytes.len() >= 1,
            bytes[0] == (if self.auto_simplify {
                1u8
            } else {
                0u8
            }),
            has_at(bytes, 1, enc_u32(self.contree_size)),
            has_at(bytes, 5, enc_u32(self.chunk_dim)),
            has_at(bytes, 9, enc_u32(self.voxel_color_palette.len() as u32)),
            has_at(bytes, 13, Self::enc_colors(self.voxel_color_palette@, 0)),
            has_at(
                bytes,
                self.data_count_place(),
                enc_u32(self.voxel_data_palette.len() as u32),
            ),
            has_at(bytes, self.data_count_place() + 4, Self::enc_data(self.voxel_data_palette@, 0)),
            has_at(bytes, self.nodes_place(), self.enc_node(0, self.contree_size as int)),
            bytes.len() == self.nodes_place() + self.enc_node(0, self.contree_size as int).len(),
    {
        let flag = seq![if self.auto_simplify {
            1u8
        } else {
            0u8
        }];
        let size = enc_u32(self.contree_size);
        let dim = enc_u32(self.chunk_dim);
        let color_count = enc_u32(self.voxel_color_palette.len() as u32);
        let colors = Self::enc_colors(self.voxel_color_palette@, 0);
        let data_count = enc_u32(self.voxel_data_palette.len() as u32);
        let data = Self::enc_data(self.voxel_data_palette@, 0);
        let nodes = self.enc_node(0, self.contree_size as int);
        Self::lemma_enc_colors_len(self.voxel_color_palette@, 0);
        Self::lemma_enc_data_len(self.voxel_data_palette@, 0);
        let h1 = flag + size;
        let h2 = h1 + dim;
        let h3 = h2 + color_count;
        let h4 = h3 + colors;
        let h5 = h4 + data_count;
        let h6 = h5 + data;
        assert(bytes == h6 + nodes);
        assert(has_at(bytes, 0, bytes)) by {
            assert forall|i: int| 0 <= i < bytes.len() implies bytes[0 + i]
                == #[trigger] bytes[i] by {}
        }
        lemma_has_at_concat(bytes, 0, h6, nodes);
        lemma_has_at_concat(bytes, 0, h5, data);
        lemma_has_at_concat(bytes, 0, h4, data_count);
        lemma_has_at_concat(bytes, 0, h3, colors);
        lemma_has_at_concat(bytes, 0, h2, color_count);
        lemma_has_at_concat(bytes, 0, h1, dim);
        lemma_has_at_concat(bytes, 0, flag, size);
        assert(bytes[0int + 0] == flag[0]);
    }

    /// The other tree has the settings and the palettes of this tree, and holds at every
    /// position what this tree holds.
    pub open spec fn restored_as(&self, other: &Self) -> bool {
        &&& other.same_settings_as(self)
        &&& self.same_voxels_as(other)
    }

    /// The bytes are the byte representation of this tree, and no longer than is read.
    pub open spec fn written_as(&self, bytes: Seq<u8>) -> bool {
        &&& self.wf()
        &&& bytes == self.encoded()
    }

    /// Reads the colors of a palette. Returns the colors and the place after them; or
    /// nothing, if the bytes are not those of colors that are all different and none of them
    /// transparent.
    pub fn decode_colors(bytes: &Vec<u8>, pos: usize, count: usize) -> (r: Option<
        (Vec<Albedo>, usize),
    >)
        requires
            count <= NO_INDEX,
            pos <= bytes.len(),
        ensures
            r matches Some((colors, next)) ==> {
                &&& colors.len() == count
                &&& next == pos + 4 * count
                &&& next <= bytes.len()
                &&& forall|i: int| 0 <= i < colors.len() ==> !(#[trigger] colors[i]).transparent()
                &&& forall|i: int, j: int| 0 <= i < j < colors.len() ==> colors[i] != colors[j]
            },
            forall|given: Seq<Albedo>| #[trigger]
                has_at(bytes@, pos as int, Self::enc_colors(given, 0)) && given.len() == count
                    && Self::colors_strict(given) ==> r is Some && r.unwrap().0@ == given,
    {
        let mut colors: Vec<Albedo> = Vec::new();
        let mut place: usize = pos;
        let mut i: usize = 0;
        while i < count
            invariant
                i <= count,
                count <= NO_INDEX,
                colors.len() == i,
                place == pos + 4 * i,
                place <= bytes.len(),
                forall|j: int| 0 <= j < colors.len() ==> !(#[trigger] colors[j]).transparent(),
                forall|j: int, l: int| 0 <= j < l < colors.len() ==> colors[j] != colors[l],
                forall|given: Seq<Albedo>| #[trigger]
                    has_at(bytes@, pos as int, Self::enc_colors(given, 0)) && given.len() == count
                        && Self::colors_strict(given) ==> has_at(
                        bytes@,
                        place as int,
                        Self::enc_colors(given, i as int),
                    ) && colors@ == given.subrange(0, i as int),
            decreases count - i,
        {
            proof {
                assert forall|given: Seq<Albedo>| #[trigger]
                    has_at(bytes@, pos as int, Self::enc_colors(given, 0)) && given.len() == count
                        && Self::colors_strict(given) implies place + 4 <= bytes.len() && has_at(
                    bytes@,
                    place + 4,
                    Self::enc_colors(given, i + 1),
                ) && bytes[place as int] == given[i as int].r
                    && bytes[place + 1] == given[i as int].g
                    && bytes[place + 2] == given[i as int].b && bytes[place + 3]
                    == given[i as int].a by {
                    let first = seq![
                        given[i as int].r,
                        given[i as int].g,
                        given[i as int].b,
                        given[i as int].a,
                    ];
                    lemma_has_at_concat(
                        bytes@,
                        place as int,
                        first,
                        Self::enc_colors(given, i + 1),
                    );
                    assert(bytes[place + 0] == first[0]);
                    assert(bytes[place + 1] == first[1]);
                    assert(bytes[place + 2] == first[2]);
                    assert(bytes[place + 3] == first[3]);
                }
            }
            if bytes.len() < 4 || place > bytes.len() - 4 {
                return None;
            }
            let color: Albedo = Albedo {
                r: bytes[place],
                g: bytes[place + 1],
                b: bytes[place + 2],
                a: bytes[place + 3],
            };
            proof {
                assert forall|given: Seq<Albedo>| #[trigger]
                    has_at(bytes@, pos as int, Self::enc_colors(given, 0)) && given.len() == count
                        && Self::colors_strict(given) implies color == given[i as int]
                    && !color.transparent() && !colors@.contains(color) by {
                    assert(colors@ == given.subrange(0, i as int));
                    if colors@.contains(color) {
                        let j = choose|j: int| 0 <= j < colors.len() && colors@[j] == color;
                        assert(given[j] == given[i as int]);
                    }
                }
            }
            if color.is_transparent() || find_color(&colors, &color).is_some() {
                return None;
            }
            let ghost before = colors@;
            colors.push(color);
            proof {
                assert forall|given: Seq<Albedo>| #[trigger]
                    has_at(bytes@, pos as int, Self::enc_colors(given, 0)) && given.len() == count
                        && Self::colors_strict(given) implies colors@ == given.subrange(
                    0,
                    i + 1,
                ) by {
                    assert(before == given.subrange(0, i as int));
                    assert(colors@ =~= given.subrange(0, i + 1));
                }
                assert forall|j: int, l: int| 0 <= j < l < colors.len() implies colors[j]
                    != colors[l] by {
                    if l == i {
                        assert(before[j] != color);
                    }
                }
            }
            place += 4;
            i += 1;
        }
        proof {
            assert forall|given: Seq<Albedo>| #[trigger]
                has_at(bytes@, pos as int, Self::enc_colors(given, 0)) && given.len() == count
                    && Self::colors_strict(given) implies colors@ == given by {
                assert(given.subrange(0, count as int) =~= given);
            }
        }
        Some((colors, place))
    }

    /// The colors are all different, and none of them is transparent.
    pub open spec fn colors_strict(colors: Seq<Albedo>) -> bool {
        &&& forall|i: int| 0 <= i < colors.len() ==> !(#[trigger] colors[i]).transparent()
        &&& forall|i: int, j: int| 0 <= i < j < colors.len() ==> colors[i] != colors[j]
    }

    /// The user data are all different, and none of them is empty.
    pub open spec fn data_strict(data: Seq<T>) -> bool {
        &&& forall|i: int| 0 <= i < data.len() ==> !(#[trigger] data[i]).empty()
        &&& forall|i: int, j: int| 0 <= i < j < data.len() ==> data[i] != data[j]
    }

    /// Reads the user data of a palette. Returns the data and the place after them; or
    /// nothing, if the bytes are not those of data that are all different and none of them
    /// empty.
    pub fn decode_data(bytes: &Vec<u8>, pos: usize, count: usize) -> (r: Option<(Vec<T>, usize)>)
        requires
            count <= NO_INDEX,
            pos <= bytes.len(),
        ensures
            r matches Some((data, next)) ==> {
                &&& data.len() == count
                &&& next == pos + 8 * count
                &&& next <= bytes.len()
                &&& Self::data_strict(data@)
            },
            forall|given: Seq<T>| #[trigger]
                has_at(bytes@, pos as int, Self::enc_data(given, 0)) && given.len() == count
                    && Self::data_strict(given) ==> r is Some && r.unwrap().0@ == given,
    {
        let mut data: Vec<T> = Vec::new();
        let mut place: usize = pos;
        let mut i: usize = 0;
        while i < count
            invariant
                i <= count,
                count <= NO_INDEX,
                data.len() == i,
                place == pos + 8 * i,
                place <= bytes.len(),
                Self::data_strict(data@),
                forall|given: Seq<T>| #[trigger]
                    has_at(bytes@, pos as int, Self::enc_data(given, 0)) && given.len() == count
                        && Self::data_strict(given) ==> has_at(
                        bytes@,
                        place as int,
                        Self::enc_data(given, i as int),
                    ) && data@ == given.subrange(0, i as int),
            decreases count - i,
        {
            let number: u64 = match get_u64(bytes, place) {
                Some(number) => number,
                None => {
                    proof {
                        assert forall|given: Seq<T>| #[trigger]
                            has_at(bytes@, pos as int, Self::enc_data(given, 0)) && given.len()
                                == count && Self::data_strict(given) implies false by {
                            lemma_has_at_concat(
                                bytes@,
                                place as int,
                                enc_u64(given[i as int].number()),
                                Self::enc_data(given, i + 1),
                            );
                        }
                    }
                    return None;
                },
            };
            let read: Option<T> = T::from_number(number);
            proof {
                assert forall|given: Seq<T>| #[trigger]
                    has_at(bytes@, pos as int, Self::enc_data(given, 0)) && given.len() == count
                        && Self::data_strict(given) implies read == Some(given[i as int]) && has_at(
                    bytes@,
                    place + 8,
                    Self::enc_data(given, i + 1),
                ) && !given[i as int].empty() && !data@.contains(given[i as int]) by {
                    lemma_has_at_concat(
                        bytes@,
                        place as int,
                        enc_u64(given[i as int].number()),
                        Self::enc_data(given, i + 1),
                    );
                    lemma_has_u64(bytes@, place as int, given[i as int].number());
                    given[i as int].lemma_number_round_trip();
                    assert(data@ == given.subrange(0, i as int));
                    if data@.contains(given[i as int]) {
                        let j = choose|j: int| 0 <= j < data.len() && data@[j] == given[i as int];
                        assert(given[j] == given[i as int]);
                    }
                }
            }
            let item: T = match read {
                Some(item) => item,
                None => {
                    return None;
                },
            };
            if item.is_empty() || find_data(&data, &item).is_some() {
                return None;
            }
            let ghost before = data@;
            data.push(item);
            proof {
                assert forall|given: Seq<T>| #[trigger]
                    has_at(bytes@, pos as int, Self::enc_data(given, 0)) && given.len() == count
                        && Self::data_strict(given) implies data@ == given.subrange(0, i + 1) by {
                    assert(before == given.subrange(0, i as int));
                    assert(data@ =~= given.subrange(0, i + 1));
                }
                assert forall|j: int,
                    l: int| 0 <= j < l < data.len() implies data[j] != data[l] by {
                    if l == i {
                        assert(before[j] != item);
                    }
                }
            }
            place += 8;
            i += 1;
        }
        proof {
            assert forall|given: Seq<T>| #[trigger]
                has_at(bytes@, pos as int, Self::enc_data(given, 0)) && given.len() == count
                    && Self::data_strict(given) implies data@ == given by {
                assert(given.subrange(0, count as int) =~= given);
            }
        }
        Some((data, place))
    }

    /// Reads a tree from its byte representation.
    ///
    /// The tree read from the bytes of a tree has the settings and the palettes of that tree,
    /// and holds at every position what that tree holds. Of other bytes a well-formed tree
    /// is read, or nothing; nothing is read of fewer bytes than the shortest tree has.
    pub fn from_bytes(bytes: &Vec<u8>) -> (r: Option<Self>)
        ensures
            r matches Some(tree) ==> tree.wf(),
            bytes.len() < 17 ==> r is None,
            forall|src: Self| #[trigger] src.written_as(bytes@) ==> r is Some && src.restored_as(
                &r.unwrap(),
            ),
    {
        proof {
            assert forall|src: Self| #[trigger] src.written_as(bytes@) implies src.header_at(
                bytes@,
            ) by {
                src.lemma_encoded_parts(bytes@);
            }
        }
        if bytes.len() < 17 {
            return None;
        }
        let flag: u8 = bytes[0];
        if flag > 1 {
            return None;
        }
        let size: u32 = match get_u32(bytes, 1) {
            Some(value) => value,
            None => {
                return None;
            },
        };
        let chunk_dim: u32 = match get_u32(bytes, 5) {
            Some(value) => value,
            None => {
                return None;
            },
        };
        let color_count: u32 = match get_u32(bytes, 9) {
            Some(value) => value,
            None => {
                return None;
            },
        };
        proof {
            assert forall|src: Self| #[trigger] src.written_as(bytes@) implies src.contree_size
                == size && src.chunk_dim == chunk_dim && src.voxel_color_palette.len()
                == color_count && src.auto_simplify == (flag == 1) by {
                assert(src.header_at(bytes@));
                lemma_has_u32(bytes@, 1, src.contree_size);
                lemma_has_u32(bytes@, 5, src.chunk_dim);
                lemma_has_u32(bytes@, 9, src.voxel_color_palette.len() as u32);
            }
        }
        if color_count > 0xFFFF {
            return None;
        }
        let colors_read: Option<(Vec<Albedo>, usize)> = Self::decode_colors(
            bytes,
            13,
            color_count as usize,
        );
        proof {
            assert forall|src: Self| #[trigger] src.written_as(bytes@) implies colors_read is Some
                && colors_read.unwrap().0@ == src.voxel_color_palette@ by {
                assert(src.header_at(bytes@));
                assert(has_at(bytes@, 13, Self::enc_colors(src.voxel_color_palette@, 0)));
                assert(Self::colors_strict(src.voxel_color_palette@));
            }
        }
        let (colors, data_count_place): (Vec<Albedo>, usize) = match colors_read {
            Some(read) => read,
            None => {
                return None;
            },
        };
        let data_count: u32 = match get_u32(bytes, data_count_place) {
            Some(value) => value,
            None => {
                return None;
            },
        };
        proof {
            assert forall|src: Self| #[trigger] src.written_as(bytes@) implies src.voxel_data_palette.len()
                == data_count by {
                assert(src.header_at(bytes@));
                lemma_has_u32(bytes@, data_count_place as int, src.voxel_data_palette.len() as u32);
            }
        }
        if data_count > 0xFFFF {
            return None;
        }
        let data_read: Option<(Vec<T>, usize)> = Self::decode_data(
            bytes,
            data_count_place + 4,
            data_count as usize,
        );
        proof {
            assert forall|src: Self| #[trigger] src.written_as(bytes@) implies data_read is Some
                && data_read.unwrap().0@ == src.voxel_data_palette@ by {
                assert(src.header_at(bytes@));
                assert(has_at(
                    bytes@,
                    data_count_place + 4,
                    Self::enc_data(src.voxel_data_palette@, 0),
                ));
                assert(Self::data_strict(src.voxel_data_palette@));
            }
        }
        let (data, nodes_place): (Vec<T>, usize) = match data_read {
            Some(read) => read,
            None => {
                return None;
            },
        };
        let created: Result<Self, crate::types::ContreeError> = Self::new(size, chunk_dim);
        proof {
            assert forall|src: Self| #[trigger] src.written_as(bytes@) implies created is Ok by {
                lemma_power_of_two_positive(src.dim());
                lemma_node_size_fits(src.contree_size as int, src.dim());
            }
        }
        let mut tree: Self = match created {
            Ok(tree) => tree,
            Err(_) => {
                return None;
            },
        };
        let ghost created_tree = tree;
        tree.auto_simplify = flag == 1;
        tree.voxel_color_palette = colors;
        tree.voxel_data_palette = data;
        proof {
            assert(tree.node_ok(0)) by {
                assert(created_tree.node_ok(0));
            }
            assert forall|key: int| tree.nodes.valid(key) implies #[trigger] tree.node_ok(key) by {
                assert(key == 0);
            }
        }
        let ghost empty_tree = tree;
        let end: Option<usize> = tree.decode_node(
            Self::ROOT_NODE_KEY as usize,
            size,
            bytes,
            nodes_place,
        );
        proof {
            assert forall|src: Self| #[trigger] src.written_as(bytes@) implies end == Some(
                bytes.len(),
            ) && src.restored_as(&tree) by {
                assert(src.header_at(bytes@));
                assert(src.nodes_place() == nodes_place);
                assert(empty_tree.node_written_at(&src, 0, 0, bytes@, nodes_place as int));
                // the keys suffice for the nodes of the tree whose bytes these are
                src.lemma_root_budget();
                assert(empty_tree.nodes.slots() == 1);
                assert(empty_tree.node_fits(&src, 0));
                assert(tree.node_read_as(end, &src, 0, 0, nodes_place as int));
                assert forall|x: int, y: int, z: int| #[trigger]
                    tree.voxel(x, y, z) == src.voxel(x, y, z) by {
                    if src.root_cube().contains_point(x, y, z) {
                        assert(tree.voxel_in(0, src.root_cube(), x, y, z) == src.voxel_in(
                            0,
                            src.root_cube(),
                            x,
                            y,
                            z,
                        ));
                    }
                }
            }
        }
        match end {
            Some(end) => if end == bytes.len() {
                Some(tree)
            } else {
                None
            },
            None => None,
        }
    }

    /// The parts of the header of the tree, and its nodes, stand in the bytes one after
    /// the other.
    pub open spec fn header_at(&self, bytes: Seq<u8>) -> bool {
        &&& bytes.len() >= 1
        &&& bytes[0] == (if self.auto_simplify {
            1u8
        } else {
            0u8
        })
        &&& has_at(bytes, 1, enc_u32(self.contree_size))
        &&& has_at(bytes, 5, enc_u32(self.chunk_dim))
        &&& has_at(bytes, 9, enc_u32(self.voxel_color_palette.len() as u32))
        &&& has_at(bytes, 13, Self::enc_colors(self.voxel_color_palette@, 0))
        &&& has_at(bytes, self.data_count_place(), enc_u32(self.voxel_data_palette.len() as u32))
        &&& has_at(bytes, self.data_count_place() + 4, Self::enc_data(self.voxel_data_palette@, 0))
        &&& has_at(bytes, self.nodes_place(), self.enc_node(0, self.contree_size as int))
        &&& bytes.len() == self.nodes_place() + self.enc_node(0, self.contree_size as int).len()
    }
}

} // verus!
