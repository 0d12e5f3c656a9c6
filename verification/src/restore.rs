//! Building the nodes of a tree from their bytes.
use vstd::prelude::*;
use crate::arena::cube_inside;
use crate::bytecode::{
    enc_brick, enc_bricks, TAG_ABSENT, TAG_INTERNAL, TAG_LEAF, TAG_NOTHING, TAG_UNIFORM,
};
use crate::compaction::lemma_same_content_voxel;
use crate::decode::{
    brick_read_as, brick_written_at, bricks_read_as, bricks_written_at, decode_brick,
    decode_leaf_bricks, has_at, lemma_has_at_concat,
};
use crate::semantics::lemma_inside_one_child;
use crate::spatial::{lemma_child_cube_contains, Cube};
use crate::tree::{lemma_node_size, lemma_power_of_two_positive, Contree};
use crate::types::{ChunkData, VoxelContent, VoxelData, EMPTY_MARKER};

verus! {

impl<T: VoxelData> Contree<T> {
    /// The node `k` of the tree `src` is one that the bytes at the place can be read as,
    /// into the node `key` of this tree: the two trees have the same brick dimension and
    /// palettes of the same lengths, the two nodes the same cube, and the bytes of the node
    /// stand at the place.
    pub open spec fn node_written_at(&self, src: &Self, k: int, key: int, bytes: Seq<u8>,
        pos: int) -> bool {
        &&& src.wf()
        &&& src.nodes.valid(k)
        &&& src.chunk_dim == self.chunk_dim
        &&& src.node_bounds@[k] == self.node_bounds@[key]
        &&& src.voxel_color_palette.len() == self.voxel_color_palette.len()
        &&& src.voxel_data_palette.len() == self.voxel_data_palette.len()
        &&& has_at(bytes, pos, src.enc_node(k, self.node_bounds@[key].size as int))
    }

    /// This tree has keys left for the nodes that the tree `src` has below the cube of the
    /// node `key`.
    pub open spec fn node_fits(&self, src: &Self, key: int) -> bool {
        self.nodes.slots() + src.below_count(src.nodes.slots() as int, self.node_bounds@[key])
            <= EMPTY_MARKER
    }

    /// While the children of the node `key` are read from those of the node `k` of the tree
    /// `src`: this tree, which had the given number of keys in use before, has keys left for
    /// the nodes of `src` in the sectants from the given one on. The nodes in the cube of the
    /// sectant are among them; a child of `k` in the sectant is one of those, and not below
    /// that cube.
    pub open spec fn child_fits(&self, src: &Self, k: int, key: int, sectant: int,
        used: int) -> bool {
        let n = src.nodes.slots() as int;
        let region = self.node_bounds@[key];
        let cube = region.child_cube(sectant);
        &&& self.nodes.slots() + src.sectants_count(n, region, sectant) <= used + src.below_count(
            n,
            region,
        )
        &&& used + src.below_count(n, region) <= EMPTY_MARKER
        &&& src.sectants_count(n, region, sectant) == src.sectants_count(n, region, sectant + 1)
            + src.inside_count(n, cube)
        &&& 0 <= src.sectants_count(n, region, sectant + 1)
        &&& 0 <= src.below_count(n, cube) <= src.inside_count(n, cube)
        &&& src.nodes.valid(src.node_children[k].child_key(sectant)) ==> src.inside_count(n, cube)
            >= 1 + src.below_count(n, cube)
    }

    /// The subtree of the node `key` of this tree shows what the subtree of the node `k` of
    /// the tree `src` shows.
    pub open spec fn shows_as(&self, src: &Self, k: int, key: int, bounds: Cube) -> bool {
        forall|x: int, y: int, z: int|
            bounds.contains_point(x, y, z) ==> #[trigger] self.voxel_in(key, bounds, x, y, z)
                == src.voxel_in(k, bounds, x, y, z)
    }

    /// What was read is the node `k` of the tree `src`: the place after it is the place
    /// after its bytes, and the node `key` of this tree shows what it shows.
    pub open spec fn node_read_as(&self, r: Option<usize>, src: &Self, k: int, key: int,
        pos: int) -> bool {
        &&& r == Some(
            (pos + src.enc_node(k, self.node_bounds@[key].size as int).len()) as usize,
        )
        &&& pos + src.enc_node(k, self.node_bounds@[key].size as int).len() <= usize::MAX
        &&& self.shows_as(src, k, key, self.node_bounds@[key])
    }

    /// The child of the node `key` of this tree in the given sectant was read as the child
    /// of the node `k` of the tree `src` in that sectant: both are missing, or this tree
    /// shows in the sectant what `src` shows there.
    pub open spec fn child_read_as(&self, src: &Self, k: int, key: int, sectant: int) -> bool {
        let given = src.node_children[k].child_key(sectant);
        let read = self.node_children[key].child_key(sectant);
        let cube = self.node_bounds@[key].child_cube(sectant);
        &&& src.nodes.valid(given) <==> read != EMPTY_MARKER
        &&& read != EMPTY_MARKER ==> self.shows_as(src, given, read, cube)
    }

    /// The children read so far are the first children of the node `k` of the tree `src`,
    /// and the bytes of the others stand at the place reached.
    pub open spec fn children_read_from(
        &self,
        src: &Self,
        k: int,
        key: int,
        count: int,
        bytes: Seq<u8>,
        place: int,
        pos: int,
    ) -> bool {
        let size = self.node_bounds@[key].size as int;
        &&& src.nodes.item(k) is Internal
        &&& has_at(bytes, place, src.enc_children(k, size, count))
        &&& place + src.enc_children(k, size, count).len() == pos + src.enc_node(k, size).len()
        &&& forall|j: int| 0 <= j < count ==> #[trigger] self.child_read_as(src, k, key, j)
    }

    /// The first byte of the bytes of a node is the tag of its kind.
    pub proof fn lemma_tag(&self, k: int, size: int)
        requires
            self.wf(),
            self.nodes.valid(k) ==> size == self.node_bounds@[k].size,
        ensures
            self.enc_node(k, size).len() >= 1,
            self.enc_node(k, size)[0] == (if !self.nodes.valid(k) {
                TAG_ABSENT
            } else {
                match self.nodes.item(k) {
                    VoxelContent::Nothing => TAG_NOTHING,
                    VoxelContent::Internal(_) => TAG_INTERNAL,
                    VoxelContent::UniformLeaf(_) => TAG_UNIFORM,
                    VoxelContent::Leaf(_) => TAG_LEAF,
                }
            }),
    {
        if self.nodes.valid(k) {
            assert(self.node_ok(k));
            lemma_power_of_two_positive(self.dim());
            lemma_node_size(size, self.dim());
        }
    }

    /// Reads a node, and the nodes below it, into the node with the given key, which holds
    /// nothing yet. Returns the place after the bytes of the node; or nothing, if the bytes
    /// at the place are not those of a node that fits the tree.
    pub fn decode_node(&mut self, key: usize, size: u32, bytes: &Vec<u8>, pos: usize) -> (r: Option<
        usize,
    >)
        requires
            old(self).wf(),
            old(self).nodes.valid(key as int),
            old(self).nodes.item(key as int) is Nothing,
            size == old(self).node_bounds@[key as int].size,
            old(self).nodes.slots() <= 1 + pos,
        ensures
            final(self).wf(),
            final(self).nodes.valid(key as int),
            final(self).node_bounds@[key as int] == old(self).node_bounds@[key as int],
            final(self).node_parents@[key as int] == old(self).node_parents@[key as int],
            old(self).changed_inside(final(self), old(self).node_bounds@[key as int]),
            r matches Some(next) ==> pos < next <= bytes.len() && final(self).nodes.slots() <= next,
            forall|src: Self, k: int| #[trigger]
                old(self).node_written_at(&src, k, key as int, bytes@, pos as int)
                    && old(self).node_fits(&src, key as int) ==> final(self).node_read_as(
                    r,
                    &src,
                    k,
                    key as int,
                    pos as int,
                ) && final(self).nodes.slots() <= old(self).nodes.slots() + src.below_count(
                    src.nodes.slots() as int,
                    old(self).node_bounds@[key as int],
                ),
        decreases size,
    {
        let ghost region = self.node_bounds@[key as int];
        let ghost dim = self.dim();
        proof {
            assert(self.node_ok(key as int));
            lemma_power_of_two_positive(dim);
            lemma_node_size(region.size as int, dim);
            self.lemma_changed_inside_refl(region);
            self.lemma_update_palettes_ok(EMPTY_MARKER);
            assert forall|src: Self, k: int| #[trigger]
                self.node_written_at(&src, k, key as int, bytes@, pos as int) implies pos
                < bytes.len() && bytes[pos as int] == src.enc_node(k, size as int)[0]
                && 0 <= src.below_count(src.nodes.slots() as int, region) by {
                src.lemma_tag(k, size as int);
                src.lemma_counts_bounds(src.nodes.slots() as int, region);
            }
        }
        if pos >= bytes.len() {
            return None;
        }
        let tag: u8 = bytes[pos];
        if tag == TAG_NOTHING {
            proof {
                assert forall|src: Self, k: int| #[trigger]
                    self.node_written_at(
                        &src,
                        k,
                        key as int,
                        bytes@,
                        pos as int,
                    ) implies self.node_read_as(Some((pos + 1) as usize), &src, k, key as int,
                        pos as int) by {
                    src.lemma_tag(k, size as int);
                    assert(src.nodes.item(k) is Nothing);
                    assert forall|x: int, y: int, z: int|
                        region.contains_point(x, y, z) implies #[trigger] self.voxel_in(
                        key as int,
                        region,
                        x,
                        y,
                        z,
                    ) == src.voxel_in(k, region, x, y, z) by {
                        self.lemma_voxel_of_leaf(key as int, region, x, y, z);
                        src.lemma_voxel_of_leaf(k, region, x, y, z);
                    }
                }
            }
            return Some(pos + 1);
        }
        if tag == TAG_UNIFORM {
            let read: Option<(ChunkData, usize)> = decode_brick(
                bytes,
                pos + 1,
                self.chunk_dim,
                self.voxel_color_palette.len(),
                self.voxel_data_palette.len(),
            );
            proof {
                assert forall|src: Self, k: int| #[trigger]
                    self.node_written_at(
                        &src,
                        k,
                        key as int,
                        bytes@,
                        pos as int,
                    ) implies src.nodes.item(k) matches VoxelContent::UniformLeaf(given)
                    && brick_read_as(read, given, pos + 1) by {
                    src.lemma_tag(k, size as int);
                    assert(src.node_ok(k));
                    match src.nodes.item(k) {
                        VoxelContent::UniformLeaf(given) => {
                            lemma_has_at_concat(
                                bytes@,
                                pos as int,
                                seq![TAG_UNIFORM],
                                enc_brick(given),
                            );
                            assert(brick_written_at(
                                given,
                                bytes@,
                                pos + 1,
                                dim,
                                self.voxel_color_palette.len() as int,
                                self.voxel_data_palette.len() as int,
                            ));
                        },
                        _ => {},
                    }
                }
            }
            let (brick, next): (ChunkData, usize) = match read {
                Some(read) => read,
                None => {
                    return None;
                },
            };
            let ghost before = *self;
            self.put_content(key, VoxelContent::UniformLeaf(brick));
            let ghost put = *self;
            proof {
                assert forall|src: Self, k: int| #[trigger]
                    old(self).node_written_at(
                        &src,
                        k,
                        key as int,
                        bytes@,
                        pos as int,
                    ) implies self.node_read_as(Some(next), &src, k, key as int, pos as int) by {
                    src.lemma_tag(k, size as int);
                    assert(src.node_ok(k));
                    match src.nodes.item(k) {
                        VoxelContent::UniformLeaf(given) => {
                            assert(brick_read_as(read, given, pos + 1));
                            assert forall|x: int, y: int, z: int|
                                region.contains_point(x, y, z) implies #[trigger] self.voxel_in(
                                key as int,
                                region,
                                x,
                                y,
                                z,
                            ) == src.voxel_in(k, region, x, y, z) by {
                                self.lemma_voxel_of_leaf(key as int, region, x, y, z);
                                src.lemma_voxel_of_leaf(k, region, x, y, z);
                                lemma_same_content_voxel(
                                    VoxelContent::UniformLeaf(brick),
                                    VoxelContent::UniformLeaf(given),
                                    region,
                                    dim,
                                    x,
                                    y,
                                    z,
                                );
                            }
                        },
                        _ => {},
                    }
                }
            }
            return Some(next);
        }
        if tag == TAG_LEAF {
            let read: Option<(Vec<ChunkData>, usize)> = decode_leaf_bricks(
                bytes,
                pos + 1,
                self.chunk_dim,
                self.voxel_color_palette.len(),
                self.voxel_data_palette.len(),
            );
            proof {
                assert forall|src: Self, k: int| #[trigger]
                    self.node_written_at(
                        &src,
                        k,
                        key as int,
                        bytes@,
                        pos as int,
                    ) implies src.nodes.item(k) matches VoxelContent::Leaf(given) && bricks_read_as(
                    read,
                    given,
                    pos + 1,
                ) by {
                    src.lemma_tag(k, size as int);
                    assert(src.node_ok(k));
                    match src.nodes.item(k) {
                        VoxelContent::Leaf(given) => {
                            lemma_has_at_concat(
                                bytes@,
                                pos as int,
                                seq![TAG_LEAF],
                                enc_bricks(given@, 0),
                            );
                            assert(bricks_written_at(
                                given,
                                bytes@,
                                pos + 1,
                                dim,
                                self.voxel_color_palette.len() as int,
                                self.voxel_data_palette.len() as int,
                            ));
                        },
                        _ => {},
                    }
                }
            }
            let (bricks, next): (Vec<ChunkData>, usize) = match read {
                Some(read) => read,
                None => {
                    return None;
                },
            };
            let ghost read_bricks = bricks;
            let ghost before = *self;
            self.put_content(key, VoxelContent::Leaf(bricks));
            let ghost put = *self;
            proof {
                assert forall|src: Self, k: int| #[trigger]
                    old(self).node_written_at(
                        &src,
                        k,
                        key as int,
                        bytes@,
                        pos as int,
                    ) implies self.node_read_as(Some(next), &src, k, key as int, pos as int) by {
                    src.lemma_tag(k, size as int);
                    assert(src.node_ok(k));
                    match src.nodes.item(k) {
                        VoxelContent::Leaf(given) => {
                            assert(bricks_read_as(read, given, pos + 1));
                            assert forall|x: int, y: int, z: int|
                                region.contains_point(x, y, z) implies #[trigger] self.voxel_in(
                                key as int,
                                region,
                                x,
                                y,
                                z,
                            ) == src.voxel_in(k, region, x, y, z) by {
                                self.lemma_voxel_of_leaf(key as int, region, x, y, z);
                                src.lemma_voxel_of_leaf(k, region, x, y, z);
                                lemma_same_content_voxel(
                                    VoxelContent::Leaf(read_bricks),
                                    VoxelContent::Leaf(given),
                                    region,
                                    dim,
                                    x,
                                    y,
                                    z,
                                );
                            }
                        },
                        _ => {},
                    }
                }
            }
            return Some(next);
        }
        if tag != TAG_INTERNAL || size / 4 < 4 * self.chunk_dim || size % 4 != 0 || size / 4
            == self.chunk_dim {
            proof {
                assert forall|src: Self, k: int| #[trigger]
                    self.node_written_at(&src, k, key as int, bytes@, pos as int) implies false by {
                    src.lemma_tag(k, size as int);
                    assert(src.node_ok(k));
                    lemma_node_size(size as int, dim);
                }
            }
            return None;
        }
        self.decode_children(key, size, bytes, pos)
    }

    /// Reads the sixty-four children of a divided node into the node with the given key,
    /// which holds nothing yet and whose tag stands at the given place. Returns the place
    /// after the bytes of the node; or nothing, if the bytes after the tag are not those of
    /// the children of a node that fits the tree.
    pub fn decode_children(&mut self, key: usize, size: u32, bytes: &Vec<u8>, pos: usize) -> (r:
        Option<usize>)
        requires
            old(self).wf(),
            old(self).nodes.valid(key as int),
            old(self).nodes.item(key as int) is Nothing,
            size == old(self).node_bounds@[key as int].size,
            size > 4 * old(self).chunk_dim,
            old(self).nodes.slots() <= 1 + pos,
            pos < bytes.len(),
            bytes[pos as int] == TAG_INTERNAL,
        ensures
            final(self).wf(),
            final(self).nodes.valid(key as int),
            final(self).node_bounds@[key as int] == old(self).node_bounds@[key as int],
            final(self).node_parents@[key as int] == old(self).node_parents@[key as int],
            old(self).changed_inside(final(self), old(self).node_bounds@[key as int]),
            r matches Some(next) ==> pos < next <= bytes.len() && final(self).nodes.slots() <= next,
            forall|src: Self, k: int| #[trigger]
                old(self).node_written_at(&src, k, key as int, bytes@, pos as int)
                    && old(self).node_fits(&src, key as int) ==> final(self).node_read_as(
                    r,
                    &src,
                    k,
                    key as int,
                    pos as int,
                ) && final(self).nodes.slots() <= old(self).nodes.slots() + src.below_count(
                    src.nodes.slots() as int,
                    old(self).node_bounds@[key as int],
                ),
        decreases size, 0int,
    {
        let ghost region = self.node_bounds@[key as int];
        let ghost hangs = self.node_parents@[key as int];
        let ghost dim = self.dim();
        proof {
            assert(self.node_ok(key as int));
            lemma_power_of_two_positive(dim);
            lemma_node_size(region.size as int, dim);
        }
        self.make_internal(key);
        let ghost divided = *self;
        let mut place: usize = pos + 1;
        let mut sectant: u8 = 0;
        proof {
            assert forall|src: Self, k: int| #[trigger]
                old(self).node_written_at(
                    &src,
                    k,
                    key as int,
                    bytes@,
                    pos as int,
                ) && old(self).node_fits(&src, key as int) implies self.children_read_from(&src,
                    k, key as int, 0, bytes@, place as int,
                    pos as int) by {
                src.lemma_tag(k, size as int);
                assert(src.node_ok(k));
                lemma_has_at_concat(
                    bytes@,
                    pos as int,
                    seq![TAG_INTERNAL],
                    src.enc_children(k, size as int, 0),
                );
            }
            assert forall|src: Self, k: int| #[trigger]
                old(self).node_written_at(&src, k, key as int, bytes@, pos as int)
                    && old(self).node_fits(&src,
                    key as int) implies self.nodes.slots() + src.sectants_count(
                src.nodes.slots() as int,
                region,
                0,
            ) <= old(self).nodes.slots() + src.below_count(src.nodes.slots() as int, region) by {
                src.lemma_tag(k, size as int);
                src.lemma_sectant_budget(k, 0);
            }
        }
        while sectant < 64
            invariant
                sectant <= 64,
                self.wf(),
                old(self).wf(),
                dim == self.dim(),
                dim == old(self).dim(),
                dim >= 1,
                self.same_settings_as(old(self)),
                old(self).nodes.valid(key as int),
                self.nodes.valid(key as int),
                self.nodes.item(key as int) is Internal,
                self.node_bounds@[key as int] == region,
                self.node_parents@[key as int] == hangs,
                hangs == old(self).node_parents@[key as int],
                region == old(self).node_bounds@[key as int],
                region.wf(),
                region.size == size,
                size % 4 == 0,
                size > 4 * dim,
                old(self).changed_inside(self, region),
                pos < place <= bytes.len(),
                self.nodes.slots() <= place,
                forall|src: Self, k: int| #[trigger]
                    old(self).node_written_at(&src, k, key as int, bytes@, pos as int)
                        && old(self).node_fits(&src, key as int)
                        ==> self.nodes.slots() + src.sectants_count(
                        src.nodes.slots() as int,
                        region,
                        sectant as int,
                    ) <= old(self).nodes.slots() + src.below_count(
                        src.nodes.slots() as int,
                        region,
                    ),
                forall|s: int|
                    sectant <= s < 64 ==> self.node_children[key as int].child_key(s)
                        == EMPTY_MARKER,
                forall|src: Self, k: int| #[trigger]
                    old(self).node_written_at(&src, k, key as int, bytes@, pos as int)
                        && old(self).node_fits(&src, key as int)
                        ==> self.children_read_from(
                        &src,
                        k,
                        key as int,
                        sectant as int,
                        bytes@,
                        place as int,
                        pos as int,
                    ),
            decreases 64 - sectant,
        {
            let ghost cube = region.child_cube(sectant as int);
            let ghost before = *self;
            proof {
                assert(self.node_ok(key as int));
                self.lemma_child_bounds_ok(region, sectant as int);
                // the bytes of the child stand at the place, and those of the others after it
                assert forall|src: Self, k: int| #[trigger]
                    old(self).node_written_at(
                        &src,
                        k,
                        key as int,
                        bytes@,
                        pos as int,
                    ) && old(self).node_fits(&src, key as int) implies has_at(
                    bytes@,
                    place as int,
                    src.enc_node(src.node_children[k].child_key(sectant as int), size as int / 4),
                ) && has_at(
                    bytes@,
                    place + src.enc_node(
                        src.node_children[k].child_key(sectant as int),
                        size as int / 4,
                    ).len(),
                    src.enc_children(k, size as int, sectant + 1),
                ) && place < bytes.len() && bytes[place as int] == src.enc_node(
                    src.node_children[k].child_key(sectant as int),
                    size as int / 4,
                )[0] by {
                    assert(self.children_read_from(
                        &src,
                        k,
                        key as int,
                        sectant as int,
                        bytes@,
                        place as int,
                        pos as int,
                    ));
                    let given = src.node_children[k].child_key(sectant as int);
                    lemma_has_at_concat(
                        bytes@,
                        place as int,
                        src.enc_node(given, size as int / 4),
                        src.enc_children(k, size as int, sectant + 1),
                    );
                    assert(src.node_ok(k));
                    assert(src.link_ok(k, sectant as int));
                    src.lemma_tag(given, size as int / 4);
                }
                // the keys that are left suffice for the child and the nodes below it
                assert forall|src: Self, k: int| #[trigger]
                    old(self).node_written_at(
                        &src,
                        k,
                        key as int,
                        bytes@,
                        pos as int,
                    ) && old(self).node_fits(&src, key as int) implies self.child_fits(
                    &src,
                    k,
                    key as int,
                    sectant as int,
                    old(self).nodes.slots() as int,
                ) by {
                    src.lemma_tag(k, size as int);
                    src.lemma_sectant_budget(k, sectant as int);
                }
            }
            if place >= bytes.len() {
                return None;
            }
            if bytes[place] == TAG_ABSENT {
                proof {
                    assert forall|src: Self, k: int| #[trigger]
                        old(self).node_written_at(
                            &src,
                            k,
                            key as int,
                            bytes@,
                            pos as int,
                        ) && old(self).node_fits(&src, key as int) implies self.children_read_from(
                        &src,
                        k,
                        key as int,
                        sectant + 1,
                        bytes@,
                        place + 1,
                        pos as int,
                    ) by {
                        assert(self.children_read_from(
                            &src,
                            k,
                            key as int,
                            sectant as int,
                            bytes@,
                            place as int,
                            pos as int,
                        ));
                        let given = src.node_children[k].child_key(sectant as int);
                        assert(src.node_ok(k));
                        assert(src.link_ok(k, sectant as int));
                        src.lemma_tag(given, size as int / 4);
                        assert(!src.nodes.valid(given));
                        assert(src.enc_node(given, size as int / 4).len() == 1);
                        assert forall|j: int| 0 <= j < sectant + 1 implies #[trigger] self.child_read_as(
                            &src,
                            k,
                            key as int,
                            j,
                        ) by {}
                    }
                    assert forall|src: Self, k: int| #[trigger]
                        old(self).node_written_at(&src, k, key as int, bytes@, pos as int)
                            && old(self).node_fits(&src, key as int) implies self.nodes.slots()
                        + src.sectants_count(src.nodes.slots() as int, region,
                            sectant + 1) <= old(self).nodes.slots() + src.below_count(src.nodes.slots() as int, region) by {
                        assert(before.child_fits(
                            &src,
                            k,
                            key as int,
                            sectant as int,
                            old(self).nodes.slots() as int,
                        ));
                    }
                }
                place += 1;
            } else {
                let added: Option<usize> = self.add_child(key, sectant, VoxelContent::Nothing);
                let ghost with_child = *self;
                let child: usize = match added {
                    Some(child) => child,
                    None => {
                        proof {
                            assert(before.changed_inside(self, region));
                            old(self).lemma_changed_inside_trans(&before, self, region, region);
                            // a tree whose bytes these are has keys for all its nodes
                            assert forall|src: Self, k: int| #[trigger]
                                old(self).node_written_at(
                                    &src,
                                    k,
                                    key as int,
                                    bytes@,
                                    pos as int,
                                ) && old(self).node_fits(&src, key as int) implies false by {
                                assert(before.child_fits(
                                    &src,
                                    k,
                                    key as int,
                                    sectant as int,
                                    old(self).nodes.slots() as int,
                                ));
                                let given = src.node_children[k].child_key(sectant as int);
                                src.lemma_tag(k, size as int);
                                assert(src.node_ok(k));
                                assert(src.link_ok(k, sectant as int));
                                src.lemma_tag(given, size as int / 4);
                                assert(src.nodes.valid(given));
                            }
                        }
                        return None;
                    },
                };
                proof {
                    old(self).lemma_changed_inside_trans(&before, &with_child, region, region);
                    assert forall|src: Self, k: int| #[trigger]
                        old(self).node_written_at(
                            &src,
                            k,
                            key as int,
                            bytes@,
                            pos as int,
                        ) && old(self).node_fits(&src, key as int) implies with_child.node_fits(
                        &src,
                        child as int,
                    ) by {
                        assert(before.child_fits(
                            &src,
                            k,
                            key as int,
                            sectant as int,
                            old(self).nodes.slots() as int,
                        ));
                        let given = src.node_children[k].child_key(sectant as int);
                        src.lemma_tag(k, size as int);
                        assert(src.node_ok(k));
                        assert(src.link_ok(k, sectant as int));
                        src.lemma_tag(given, size as int / 4);
                        assert(src.nodes.valid(given));
                    }
                }
                let read: Option<usize> = self.decode_node(child, size / 4, bytes, place);
                proof {
                    assert(!cube_inside(region, cube));
                    assert(with_child.same_node_in(self, key as int));
                    old(self).lemma_changed_inside_trans(&with_child, self, cube, region);
                }
                let next: usize = match read {
                    Some(next) => next,
                    None => {
                        proof {
                            assert forall|src: Self, k: int| #[trigger]
                                old(self).node_written_at(
                                    &src,
                                    k,
                                    key as int,
                                    bytes@,
                                    pos as int,
                                ) && old(self).node_fits(&src, key as int) implies false by {
                                before.lemma_child_written(
                                    &with_child,
                                    &src,
                                    k,
                                    key as int,
                                    sectant as int,
                                    child as int,
                                    bytes@,
                                    place as int,
                                    pos as int,
                                    old(self),
                                );
                                assert(with_child.node_written_at(
                                    &src,
                                    src.node_children[k].child_key(sectant as int),
                                    child as int,
                                    bytes@,
                                    place as int,
                                ));
                                assert(self.node_read_as(
                                    read,
                                    &src,
                                    src.node_children[k].child_key(sectant as int),
                                    child as int,
                                    place as int,
                                ));
                            }
                        }
                        return None;
                    },
                };
                proof {
                    assert forall|src: Self, k: int| #[trigger]
                        old(self).node_written_at(
                            &src,
                            k,
                            key as int,
                            bytes@,
                            pos as int,
                        ) && old(self).node_fits(&src, key as int) implies self.children_read_from(
                        &src,
                        k,
                        key as int,
                        sectant + 1,
                        bytes@,
                        next as int,
                        pos as int,
                    ) by {
                        let given = src.node_children[k].child_key(sectant as int);
                        before.lemma_child_written(
                            &with_child,
                            &src,
                            k,
                            key as int,
                            sectant as int,
                            child as int,
                            bytes@,
                            place as int,
                            pos as int,
                            old(self),
                        );
                        assert(with_child.node_written_at(
                            &src,
                            given,
                            child as int,
                            bytes@,
                            place as int,
                        ));
                        assert(self.node_read_as(read, &src, given, child as int, place as int));
                        assert forall|j: int| 0 <= j < sectant + 1 implies #[trigger] self.child_read_as(
                            &src,
                            k,
                            key as int,
                            j,
                        ) by {
                            if j < sectant {
                                assert(before.child_read_as(&src, k, key as int, j));
                                before.lemma_child_kept(
                                    &with_child,
                                    self,
                                    &src,
                                    k,
                                    key as int,
                                    j,
                                    sectant as int,
                                );
                            }
                        }
                    }
                    assert forall|src: Self, k: int| #[trigger]
                        old(self).node_written_at(&src, k, key as int, bytes@, pos as int)
                            && old(self).node_fits(&src, key as int) implies self.nodes.slots()
                        + src.sectants_count(src.nodes.slots() as int, region,
                            sectant + 1) <= old(self).nodes.slots() + src.below_count(src.nodes.slots() as int, region) by {
                        let given = src.node_children[k].child_key(sectant as int);
                        assert(before.child_fits(
                            &src,
                            k,
                            key as int,
                            sectant as int,
                            old(self).nodes.slots() as int,
                        ));
                        before.lemma_child_written(
                            &with_child,
                            &src,
                            k,
                            key as int,
                            sectant as int,
                            child as int,
                            bytes@,
                            place as int,
                            pos as int,
                            old(self),
                        );
                        assert(with_child.node_written_at(
                            &src,
                            given,
                            child as int,
                            bytes@,
                            place as int,
                        ));
                        assert(with_child.node_fits(&src, child as int));
                        assert(src.nodes.valid(given));
                    }
                }
                place = next;
            }
            sectant += 1;
        }
        proof {
            assert forall|src: Self, k: int| #[trigger]
                old(self).node_written_at(
                    &src,
                    k,
                    key as int,
                    bytes@,
                    pos as int,
                ) && old(self).node_fits(&src, key as int) implies self.node_read_as(Some(place),
                    &src, k, key as int, pos as int) by {
                assert(self.children_read_from(
                    &src,
                    k,
                    key as int,
                    64,
                    bytes@,
                    place as int,
                    pos as int,
                ));
                assert(src.enc_children(k, size as int, 64) =~= Seq::<u8>::empty());
                assert(src.node_ok(k));
                assert forall|x: int, y: int, z: int|
                    region.contains_point(x, y, z) implies #[trigger] self.voxel_in(
                    key as int,
                    region,
                    x,
                    y,
                    z,
                ) == src.voxel_in(k, region, x, y, z) by {
                    lemma_child_cube_contains(region, x, y, z);
                    let s = region.sectant_of(x, y, z);
                    self.lemma_voxel_of_internal(key as int, region, x, y, z);
                    src.lemma_voxel_of_internal(k, region, x, y, z);
                    assert(self.child_read_as(&src, k, key as int, s));
                    assert(src.link_ok(k, s));
                    let given = src.node_children[k].child_key(s);
                    if !src.nodes.valid(given) {
                        assert(src.voxel_in(given, region.child_cube(s), x, y, z) == EMPTY_MARKER);
                        assert(self.voxel_in(
                            EMPTY_MARKER as int,
                            region.child_cube(s),
                            x,
                            y,
                            z,
                        ) == EMPTY_MARKER);
                    }
                }
            }
        }
        Some(place)
    }

    /// The bytes of a child of a node that is written at a place are written at the place
    /// that the children before it end at, for the child that was added to read them into.
    pub proof fn lemma_child_written(
        &self,
        with_child: &Self,
        src: &Self,
        k: int,
        key: int,
        sectant: int,
        child: int,
        bytes: Seq<u8>,
        place: int,
        pos: int,
        first: &Self,
    )
        requires
            first.node_written_at(src, k, key, bytes, pos),
            self.wf(),
            with_child.wf(),
            0 <= sectant < 64,
            self.same_settings_as(first),
            with_child.same_settings_as(first),
            self.node_bounds@[key] == first.node_bounds@[key],
            with_child.node_bounds@[child] == first.node_bounds@[key].child_cube(sectant),
            self.children_read_from(src, k, key, sectant, bytes, place, pos),
            place < bytes.len(),
            bytes[place] != TAG_ABSENT,
        ensures
            with_child.node_written_at(
                src,
                src.node_children[k].child_key(sectant),
                child,
                bytes,
                place,
            ),
    {
        let size = first.node_bounds@[key].size as int;
        let given = src.node_children[k].child_key(sectant);
        assert(src.node_ok(k));
        assert(src.link_ok(k, sectant));
        lemma_power_of_two_positive(src.dim());
        lemma_node_size(size, src.dim());
        lemma_has_at_concat(
            bytes,
            place,
            src.enc_node(given, size / 4),
            src.enc_children(k, size, sectant + 1),
        );
        src.lemma_tag(given, size / 4);
        assert(bytes[place + 0] == src.enc_node(given, size / 4)[0]);
    }

    /// A child that was read stays as it was read while a later child is added and read.
    pub proof fn lemma_child_kept(
        &self,
        with_child: &Self,
        after: &Self,
        src: &Self,
        k: int,
        key: int,
        earlier: int,
        sectant: int,
    )
        requires
            self.wf(),
            with_child.wf(),
            after.wf(),
            src.wf(),
            self.nodes.valid(key),
            self.nodes.item(key) is Internal,
            0 <= earlier < sectant < 64,
            with_child.dim() == self.dim(),
            after.dim() == self.dim(),
            self.child_read_as(src, k, key, earlier),
            with_child.node_bounds@[key] == self.node_bounds@[key],
            after.node_bounds@[key] == self.node_bounds@[key],
            with_child.node_children[key].child_key(earlier) == self.node_children[key].child_key(
                earlier,
            ),
            after.node_children[key].child_key(earlier) == self.node_children[key].child_key(
                earlier,
            ),
            forall|other: int|
                self.nodes.valid(other) && other != key ==> #[trigger] self.same_node_in(
                    with_child,
                    other,
                ),
            with_child.changed_inside(after, self.node_bounds@[key].child_cube(sectant)),
        ensures
            after.child_read_as(src, k, key, earlier),
    {
        let region = self.node_bounds@[key];
        let dim = self.dim();
        let read = self.node_children[key].child_key(earlier);
        let given = src.node_children[k].child_key(earlier);
        let cube = region.child_cube(earlier);
        assert(self.node_ok(key));
        lemma_power_of_two_positive(dim);
        lemma_node_size(region.size as int, dim);
        if read != EMPTY_MARKER {
            assert(self.link_ok(key, earlier));
            assert forall|x: int, y: int, z: int|
                cube.contains_point(x, y, z) implies #[trigger] after.voxel_in(read, cube, x, y, z)
                == src.voxel_in(given, cube, x, y, z) by {
                assert(self.voxel_in(read, cube, x, y, z) == src.voxel_in(given, cube, x, y, z));
                assert forall|m: int|
                    self.nodes.valid(m) && cube_inside(
                        self.node_bounds@[m],
                        cube,
                    ) implies #[trigger] self.same_node_in(with_child, m) by {
                    assert(self.node_ok(m));
                }
                self.lemma_voxel_frame(with_child, read, cube, x, y, z);
                assert forall|m: int|
                    with_child.nodes.valid(m) && cube_inside(
                        with_child.node_bounds@[m],
                        cube,
                    ) implies #[trigger] with_child.same_node_in(after, m) by {
                    assert(with_child.node_ok(m));
                    lemma_node_size(with_child.node_bounds@[m].size as int, dim);
                    if cube_inside(with_child.node_bounds@[m], region.child_cube(sectant)) {
                        lemma_inside_one_child(
                            region,
                            with_child.node_bounds@[m],
                            earlier,
                            sectant,
                        );
                    }
                }
                assert(self.nodes.valid(read));
                assert(self.node_bounds@[read] == cube);
                assert(read != key);
                assert(self.same_node_in(with_child, read));
                assert(with_child.nodes.valid(read));
                assert(with_child.node_bounds@[read] == cube);
                with_child.lemma_voxel_frame(after, read, cube, x, y, z);
            }
        }
    }
}

} // verus!
