//! The voxel tree: its structure, what it holds at each position, construction and queries.
use vstd::prelude::*;
use crate::node::brick_volume;
use crate::object_pool::ObjectPool;
use crate::palette::{entry_of, index_in_palettes};
use crate::spatial::{
    child_sectant_for, flat_index, flat_projection, lemma_child_cube_contains,
    lemma_flat_index_bound, matrix_coordinate, matrix_index_for, Cube, V3c,
};
use crate::types::{
    Albedo, ChunkData, ContreeEntry, ContreeError, PaletteIndexValues, VoxelChildren,
    VoxelContent, VoxelData, EMPTY_MARKER, NO_INDEX,
};

verus! {

/// The largest supported brick dimension: the number of voxels of a brick fits in 32 bits.
pub const MAX_BRICK_DIMENSION: u32 = 1024;

/// The number is a power of two.
pub open spec fn is_power_of_two(n: int) -> bool
    decreases n,
{
    n == 1 || (n > 1 && n % 2 == 0 && is_power_of_two(n / 2))
}

/// The number is a power of four.
pub open spec fn is_power_of_four(n: int) -> bool
    decreases n,
{
    n == 1 || (n > 1 && n % 4 == 0 && is_power_of_four(n / 4))
}

/// The edge length is that of a node of a tree with the given brick dimension: the brick
/// dimension times four, sixteen, sixty-four and so on.
pub open spec fn node_size_ok(size: int, dim: int) -> bool
    decreases size,
{
    size == 4 * dim || (size > 4 * dim && size % 4 == 0 && dim > 0 && node_size_ok(size / 4, dim))
}

/// A brick dimension that a tree can have.
pub open spec fn brick_dimension_ok(dim: int) -> bool {
    is_power_of_two(dim) && dim <= MAX_BRICK_DIMENSION
}

/// An edge length that a tree with the given brick dimension can have, apart from having to
/// be larger than one brick.
pub open spec fn tree_size_fits(size: int, dim: int) -> bool {
    dim <= size && size % dim == 0 && is_power_of_four(size / dim)
}

/// The value of the brick that represents the cube `bounds` at the given position.
pub open spec fn brick_voxel(
    brick: ChunkData,
    bounds: Cube,
    dim: int,
    x: int,
    y: int,
    z: int,
) -> PaletteIndexValues {
    match brick {
        ChunkData::Empty => EMPTY_MARKER,
        ChunkData::Solid(voxel) => voxel,
        ChunkData::Parted(values) => values[flat_index(
            matrix_coordinate(x - bounds.min_position.x, dim, bounds.size as int),
            matrix_coordinate(y - bounds.min_position.y, dim, bounds.size as int),
            matrix_coordinate(z - bounds.min_position.z, dim, bounds.size as int),
            dim,
        )],
    }
}

/// The value that the content of a node with the given bounds holds at the position. A
/// divided node holds its values in its children, and none itself.
pub open spec fn content_voxel(
    content: VoxelContent,
    bounds: Cube,
    dim: int,
    x: int,
    y: int,
    z: int,
) -> PaletteIndexValues {
    match content {
        VoxelContent::Nothing => EMPTY_MARKER,
        VoxelContent::Internal(_) => EMPTY_MARKER,
        VoxelContent::Leaf(bricks) => brick_voxel(
            bricks[bounds.sectant_of(x, y, z)],
            bounds.child_cube(bounds.sectant_of(x, y, z)),
            dim,
            x,
            y,
            z,
        ),
        VoxelContent::UniformLeaf(brick) => brick_voxel(brick, bounds, dim, x, y, z),
    }
}

/// The bitmap is the occupancy bitmap of the content of a leaf: for a leaf, a bit is set if
/// and only if the brick of its sectant holds something; for a uniform leaf, it is the
/// occupancy bitmap of its brick.
pub open spec fn content_bits_are<V: VoxelData>(
    content: VoxelContent,
    bitmap: u64,
    dim: int,
    colors: Seq<Albedo>,
    data: Seq<V>,
) -> bool {
    match content {
        VoxelContent::Leaf(bricks) => forall|s: int|
            0 <= s < 64 ==> crate::bitmap::bit_is_set(bitmap, s) == !(#[trigger] bricks[s]).nothing(
                colors,
                data,
            ),
        VoxelContent::UniformLeaf(brick) => brick.occupied_bits_are(bitmap, dim, colors, data),
        _ => bitmap == 0,
    }
}

/// A sparse tree of voxels in which every node has sixty-four children.
pub struct Contree<T: VoxelData> {
    /// Whether updates try to simplify the nodes they touched.
    pub auto_simplify: bool,
    /// The edge length of the tree.
    pub contree_size: u32,
    /// The edge length of a brick.
    pub chunk_dim: u32,
    /// The contents of the nodes; key 0 is the root.
    pub nodes: ObjectPool<VoxelContent>,
    /// The children descriptors of the nodes, under the keys of the nodes.
    pub node_children: Vec<VoxelChildren>,
    /// The colors that the voxels refer to.
    pub voxel_color_palette: Vec<Albedo>,
    /// The user data that the voxels refer to.
    pub voxel_data_palette: Vec<T>,
    /// The cube that each node stands for.
    pub node_bounds: Ghost<Seq<Cube>>,
    /// The node and the sectant that each node hangs under.
    pub node_parents: Ghost<Seq<(int, int)>>,
}

impl<T: VoxelData> Contree<T> {
    /// The key of the root node.
    pub const ROOT_NODE_KEY: u32 = 0;

    /// The cube that the whole tree stands for.
    pub open spec fn root_cube(&self) -> Cube {
        Cube { min_position: V3c { x: 0, y: 0, z: 0 }, size: self.contree_size }
    }

    /// The brick dimension as a mathematical integer.
    pub open spec fn dim(&self) -> int {
        self.chunk_dim as int
    }

    /// The colors are all different, none is transparent, and sixteen bits can index them.
    pub open spec fn colors_ok(&self) -> bool {
        &&& self.voxel_color_palette.len() <= NO_INDEX
        &&& forall|i: int|
            0 <= i < self.voxel_color_palette.len() ==> !(
            #[trigger] self.voxel_color_palette[i]).transparent()
        &&& forall|i: int, j: int|
            0 <= i < j < self.voxel_color_palette.len() ==> self.voxel_color_palette[i]
                != self.voxel_color_palette[j]
    }

    /// The user data are all different, none is empty, and sixteen bits can index them.
    pub open spec fn data_ok(&self) -> bool {
        &&& self.voxel_data_palette.len() <= NO_INDEX
        &&& forall|i: int|
            0 <= i < self.voxel_data_palette.len() ==> !(
            #[trigger] self.voxel_data_palette[i]).empty()
        &&& forall|i: int, j: int|
            0 <= i < j < self.voxel_data_palette.len() ==> self.voxel_data_palette[i]
                != self.voxel_data_palette[j]
    }

    /// The cube of a node: inside the tree, aligned to its own edge length, and of an edge
    /// length that a node can have.
    pub open spec fn bounds_ok(&self, bounds: Cube) -> bool {
        &&& node_size_ok(bounds.size as int, self.dim())
        &&& bounds.min_position.x + bounds.size <= self.contree_size
        &&& bounds.min_position.y + bounds.size <= self.contree_size
        &&& bounds.min_position.z + bounds.size <= self.contree_size
        &&& bounds.min_position.x as int % bounds.size as int == 0
        &&& bounds.min_position.y as int % bounds.size as int == 0
        &&& bounds.min_position.z as int % bounds.size as int == 0
    }

    /// The content of the node and its children descriptor are of kinds that go together.
    pub open spec fn paired(content: VoxelContent, children: VoxelChildren) -> bool {
        match content {
            VoxelContent::Nothing => children is NoChildren,
            VoxelContent::Internal(_) => children is Children,
            VoxelContent::Leaf(_) => children is OccupancyBitmap,
            VoxelContent::UniformLeaf(_) => children is OccupancyBitmap,
        }
    }

    /// The child key that the node stores for the sectant is empty, or it names a node that
    /// hangs under this node and sectant and stands for the cube of the sectant.
    pub open spec fn link_ok(&self, key: int, sectant: int) -> bool {
        let child = self.node_children[key].child_key(sectant);
        child == EMPTY_MARKER || {
            &&& self.nodes.valid(child)
            &&& child != 0
            &&& self.node_parents@[child] == (key, sectant)
            &&& self.node_bounds@[child] == self.node_bounds@[key].child_cube(sectant)
        }
    }

    /// What holds of every node of the tree.
    pub open spec fn node_ok(&self, key: int) -> bool {
        &&& self.bounds_ok(self.node_bounds@[key])
        &&& self.nodes.item(key).wf(self.dim())
        &&& self.nodes.item(key).in_palettes(
            self.voxel_color_palette.len() as int,
            self.voxel_data_palette.len() as int,
        )
        &&& Self::paired(self.nodes.item(key), self.node_children[key])
        &&& self.node_children[key] matches VoxelChildren::OccupancyBitmap(occupied_bits)
            ==> content_bits_are(
            self.nodes.item(key),
            occupied_bits,
            self.dim(),
            self.voxel_color_palette@,
            self.voxel_data_palette@,
        )
        &&& self.nodes.item(key) matches VoxelContent::Internal(occupied_bits) ==> {
            &&& self.node_bounds@[key].size > 4 * self.dim()
            &&& forall|sectant: int| 0 <= sectant < 64 ==> #[trigger] self.link_ok(key, sectant)
            &&& forall|sectant: int|
                0 <= sectant < 64 ==> (crate::bitmap::bit_is_set(occupied_bits, sectant) <==> (
                #[trigger] self.node_children[key].child_key(sectant)) != EMPTY_MARKER)
        }
    }

    /// The node is the root, or it hangs under a divided node that keeps its key for the
    /// sectant it hangs in.
    pub open spec fn hangs_ok(&self, key: int) -> bool {
        key == 0 || {
            let above = self.node_parents@[key];
            &&& self.nodes.valid(above.0)
            &&& self.nodes.item(above.0) is Internal
            &&& 0 <= above.1 < 64
            &&& self.node_children[above.0].child_key(above.1) == key
        }
    }

    /// The invariant of the tree.
    pub open spec fn wf(&self) -> bool {
        &&& brick_dimension_ok(self.dim())
        &&& node_size_ok(self.contree_size as int, self.dim())
        &&& self.nodes.wf()
        &&& self.nodes.slots() <= EMPTY_MARKER
        &&& self.node_children.len() == self.nodes.slots()
        &&& self.node_bounds@.len() == self.nodes.slots()
        &&& self.node_parents@.len() == self.nodes.slots()
        &&& self.nodes.valid(0)
        &&& self.node_bounds@[0] == self.root_cube()
        &&& self.colors_ok()
        &&& self.data_ok()
        &&& forall|key: int| self.nodes.valid(key) ==> #[trigger] self.node_ok(key)
        &&& forall|key: int| self.nodes.valid(key) ==> #[trigger] self.hangs_ok(key)
    }

    /// The value that the subtree of the node holds at the position, where `bounds` is the
    /// cube of the node and holds the position.
    pub open spec fn voxel_in(&self, key: int, bounds: Cube, x: int, y: int,
        z: int) -> PaletteIndexValues
        decreases bounds.size,
    {
        if !self.nodes.valid(key) {
            EMPTY_MARKER
        } else if self.nodes.item(key) is Internal {
            if bounds.size >= 4 {
                self.voxel_in(
                    self.node_children[key].child_key(bounds.sectant_of(x, y, z)),
                    bounds.child_cube(bounds.sectant_of(x, y, z)),
                    x,
                    y,
                    z,
                )
            } else {
                EMPTY_MARKER
            }
        } else {
            content_voxel(self.nodes.item(key), bounds, self.dim(), x, y, z)
        }
    }

    /// The value that the tree holds at the position; the empty marker outside of the tree.
    pub open spec fn voxel(&self, x: int, y: int, z: int) -> PaletteIndexValues {
        if self.root_cube().contains_point(x, y, z) {
            self.voxel_in(0, self.root_cube(), x, y, z)
        } else {
            EMPTY_MARKER
        }
    }

    /// The brick that the given sectant of a leaf holds: the brick of the sectant, or the
    /// one brick of a uniform leaf. Nodes that are no leaves, and keys that name no node, have
    /// none.
    pub open spec fn brick_at(&self, key: int, sectant: int) -> Option<ChunkData> {
        if !self.nodes.valid(key) {
            None
        } else {
            match self.nodes.item(key) {
                VoxelContent::UniformLeaf(brick) => Some(brick),
                VoxelContent::Leaf(bricks) => Some(bricks[sectant]),
                _ => None,
            }
        }
    }

    /// The entry that the tree holds at the position.
    pub open spec fn entry_at<'a>(&self, x: int, y: int, z: int) -> ContreeEntry<'a, T> {
        entry_of(self.voxel(x, y, z), self.voxel_color_palette@, self.voxel_data_palette@)
    }

    /// The edge length of the tree.
    pub fn get_size(&self) -> (size: u32)
        ensures
            size == self.contree_size,
    {
        self.contree_size
    }

    /// Creates an empty tree.
    /// * `size` - the edge length; the brick dimension times a power of four that is at least four
    /// * `chunk_dimension` - the edge length of a brick; a power of two, at most 1024
    pub fn new(size: u32, chunk_dimension: u32) -> (r: Result<Self, ContreeError>)
        ensures
            match r {
                Ok(tree) => {
                    &&& size != 0
                    &&& brick_dimension_ok(chunk_dimension as int)
                    &&& tree_size_fits(size as int, chunk_dimension as int)
                    &&& size >= 4 * chunk_dimension
                    &&& tree.wf()
                    &&& tree.auto_simplify
                    &&& tree.contree_size == size
                    &&& tree.chunk_dim == chunk_dimension
                    &&& tree.nodes.slots() == 1
                    &&& tree.nodes.item(0) is Nothing
                    &&& tree.voxel_color_palette.len() == 0
                    &&& tree.voxel_data_palette.len() == 0
                },
                Err(ContreeError::InvalidBrickDimension(d)) => d == chunk_dimension && (size == 0
                    || !brick_dimension_ok(chunk_dimension as int)),
                Err(ContreeError::InvalidSize(s)) => s == size && size != 0 && brick_dimension_ok(
                    chunk_dimension as int,
                ) && !tree_size_fits(size as int, chunk_dimension as int),
                Err(ContreeError::InvalidStructure(_)) => size != 0 && brick_dimension_ok(
                    chunk_dimension as int,
                ) && tree_size_fits(size as int, chunk_dimension as int) && size < 4
                    * chunk_dimension,
                Err(ContreeError::InvalidPosition { .. }) => false,
            },
    {
        if 0 == size || !check_power_of_two(chunk_dimension) || chunk_dimension
            > MAX_BRICK_DIMENSION {
            return Err(ContreeError::InvalidBrickDimension(chunk_dimension));
        }
        if chunk_dimension > size || size % chunk_dimension != 0 || !check_power_of_four(
            size / chunk_dimension,
        ) {
            return Err(ContreeError::InvalidSize(size));
        }
        if size / chunk_dimension < 4 {
            assert(size < 4 * chunk_dimension) by (nonlinear_arith)
                requires
                    size / chunk_dimension < 4,
                    size % chunk_dimension == 0,
                    chunk_dimension > 0,
            ;
            return Err(
                ContreeError::InvalidStructure(
                    "the size must be at least four times the brick dimension".to_string(),
                ),
            );
        }
        proof {
            assert(size >= 4 * chunk_dimension) by (nonlinear_arith)
                requires
                    size / chunk_dimension >= 4,
                    chunk_dimension > 0,
            ;
            lemma_size_of_ratio(size as int, chunk_dimension as int);
        }
        let mut nodes: ObjectPool<VoxelContent> = ObjectPool::with_capacity(1024);
        let root_node_key: usize = nodes.push(VoxelContent::Nothing);
        let mut node_children: Vec<VoxelChildren> = Vec::new();
        node_children.push(VoxelChildren::default());
        let ghost root_cube = Cube { min_position: V3c { x: 0, y: 0, z: 0 }, size: size };
        let node_bounds: Ghost<Seq<Cube>> = Ghost(Seq::empty().push(root_cube));
        let node_parents: Ghost<Seq<(int, int)>> = Ghost(Seq::empty().push((0int, 0int)));
        let tree = Contree {
            auto_simplify: true,
            contree_size: size,
            chunk_dim: chunk_dimension,
            nodes,
            node_children,
            voxel_color_palette: Vec::new(),
            voxel_data_palette: Vec::new(),
            node_bounds,
            node_parents,
        };
        proof {
            assert(0int % (size as int) == 0);
            assert(tree.node_ok(0));
            assert forall|key: int| tree.nodes.valid(key) implies #[trigger] tree.node_ok(key) by {
                assert(key == 0);
            }
        }
        Ok(tree)
    }

    /// The entry at the given position; the empty entry outside of the tree.
    pub fn get(&self, position: &V3c<u32>) -> (r: ContreeEntry<'_, T>)
        requires
            self.wf(),
        ensures
            r == self.entry_at(position.x as int, position.y as int, position.z as int),
    {
        let index: PaletteIndexValues = self.get_internal(
            Self::ROOT_NODE_KEY as usize,
            Cube::root_bounds(self.contree_size),
            position,
        );
        VoxelContent::pix_get_ref(&index, &self.voxel_color_palette, &self.voxel_data_palette)
    }

    /// The value that the subtree of the given node holds at the position; the empty marker
    /// outside of the bounds of the node.
    pub fn get_internal(
        &self,
        current_node_key: usize,
        current_bounds: Cube,
        position: &V3c<u32>,
    ) -> (r: PaletteIndexValues)
        requires
            self.wf(),
            self.nodes.valid(current_node_key as int),
            current_bounds == self.node_bounds@[current_node_key as int],
        ensures
            r == (if current_bounds.contains_point(
                position.x as int,
                position.y as int,
                position.z as int,
            ) {
                self.voxel_in(
                    current_node_key as int,
                    current_bounds,
                    position.x as int,
                    position.y as int,
                    position.z as int,
                )
            } else {
                EMPTY_MARKER
            }),
            index_in_palettes(
                r,
                self.voxel_color_palette.len() as int,
                self.voxel_data_palette.len() as int,
            ),
    {
        let ghost x = position.x as int;
        let ghost y = position.y as int;
        let ghost z = position.z as int;
        let mut key: usize = current_node_key;
        let mut bounds: Cube = current_bounds;
        if !bounds.contains(position) {
            return EMPTY_MARKER;
        }
        loop
            invariant
                self.wf(),
                x == position.x,
                y == position.y,
                z == position.z,
                self.nodes.valid(key as int),
                bounds == self.node_bounds@[key as int],
                bounds.contains_point(x, y, z),
                current_bounds.contains_point(x, y, z),
                self.voxel_in(key as int, bounds, x, y, z) == self.voxel_in(
                    current_node_key as int,
                    current_bounds,
                    x,
                    y,
                    z,
                ),
            decreases bounds.size,
        {
            proof {
                assert(self.node_ok(key as int));
                self.lemma_node_geometry(key as int, x, y, z);
            }
            let ghost sectant = bounds.sectant_of(x, y, z);
            match self.nodes.get(key) {
                VoxelContent::Nothing => {
                    return EMPTY_MARKER;
                },
                VoxelContent::Leaf(chunks) => {
                    let child_sectant_at_position: u8 = child_sectant_for(
                        &bounds,
                        position,
                    );
                    assert(chunks[sectant].wf(self.dim()));
                    assert(chunks[sectant].in_palettes(
                        self.voxel_color_palette.len() as int,
                        self.voxel_data_palette.len() as int,
                    ));
                    match &chunks[child_sectant_at_position as usize] {
                        ChunkData::Empty => {
                            return EMPTY_MARKER;
                        },
                        ChunkData::Parted(chunk) => {
                            let target_bounds: Cube = bounds.child_bounds_for(
                                child_sectant_at_position,
                            );
                            let mat_index: V3c<usize> = matrix_index_for(
                                &target_bounds,
                                position,
                                self.chunk_dim,
                            );
                            proof {
                                lemma_flat_index_bound(
                                    mat_index.x as int,
                                    mat_index.y as int,
                                    mat_index.z as int,
                                    self.dim(),
                                );
                            }
                            let flat: usize = flat_projection(
                                mat_index.x,
                                mat_index.y,
                                mat_index.z,
                                self.chunk_dim as usize,
                            );
                            return chunk[flat];
                        },
                        ChunkData::Solid(voxel) => {
                            return *voxel;
                        },
                    }
                },
                VoxelContent::UniformLeaf(chunk) => match chunk {
                    ChunkData::Empty => {
                        return EMPTY_MARKER;
                    },
                    ChunkData::Parted(chunk) => {
                        let mat_index: V3c<usize> = matrix_index_for(
                            &bounds,
                            position,
                            self.chunk_dim,
                        );
                        proof {
                            lemma_flat_index_bound(
                                mat_index.x as int,
                                mat_index.y as int,
                                mat_index.z as int,
                                self.dim(),
                            );
                        }
                        let flat: usize = flat_projection(
                            mat_index.x,
                            mat_index.y,
                            mat_index.z,
                            self.chunk_dim as usize,
                        );
                        return chunk[flat];
                    },
                    ChunkData::Solid(voxel) => {
                        return *voxel;
                    },
                },
                VoxelContent::Internal(_) => {
                    let child_sectant_at_position: u8 = child_sectant_for(
                        &bounds,
                        position,
                    );
                    let child_at_position: usize = self.node_children[key].child(
                        child_sectant_at_position,
                    );
                    assert(self.link_ok(key as int, sectant));
                    if self.nodes.key_is_valid(child_at_position) {
                        bounds = bounds.child_bounds_for(
                            child_sectant_at_position,
                        );
                        key = child_at_position;
                    } else {
                        assert(self.voxel_in(
                            child_at_position as int,
                            bounds.child_cube(sectant),
                            x,
                            y,
                            z,
                        ) == EMPTY_MARKER);
                        return EMPTY_MARKER;
                    }
                },
            }
        }
    }

    /// The geometry of a node: its cube stays inside 32 bits, its edge is a multiple of four
    /// and at least four bricks long, and a position inside it lies in the cube of its sectant.
    pub proof fn lemma_node_geometry(&self, key: int, x: int, y: int, z: int)
        requires
            self.wf(),
            self.nodes.valid(key),
            self.node_bounds@[key].contains_point(x, y, z),
        ensures
            self.dim() >= 1,
            self.node_bounds@[key].wf(),
            self.node_bounds@[key].size % 4 == 0,
            self.node_bounds@[key].size >= 4 * self.dim(),
            0 <= self.node_bounds@[key].sectant_of(x, y, z) < 64,
            self.node_bounds@[key].child_cube(
                self.node_bounds@[key].sectant_of(x, y, z),
            ).contains_point(x, y, z),
            self.node_bounds@[key].child_cube(self.node_bounds@[key].sectant_of(x, y, z)).wf(),
            self.node_bounds@[key].child_cube(self.node_bounds@[key].sectant_of(x, y, z)).size
                >= self.dim(),
    {
        assert(self.node_ok(key));
        let bounds = self.node_bounds@[key];
        lemma_node_size(bounds.size as int, self.dim());
        lemma_child_cube_contains(bounds, x, y, z);
    }
}

/// Tells whether the number is a power of two.
pub fn check_power_of_two(n: u32) -> (r: bool)
    ensures
        r == is_power_of_two(n as int),
{
    if n == 0 {
        return false;
    }
    let mut m: u32 = n;
    while m > 1 && m % 2 == 0
        invariant
            m >= 1,
            is_power_of_two(m as int) == is_power_of_two(n as int),
        decreases m,
    {
        m = m / 2;
    }
    m == 1
}

/// Tells whether the number is a power of four.
pub fn check_power_of_four(n: u32) -> (r: bool)
    ensures
        r == is_power_of_four(n as int),
{
    if n == 0 {
        return false;
    }
    let mut m: u32 = n;
    while m > 1 && m % 4 == 0
        invariant
            m >= 1,
            is_power_of_four(m as int) == is_power_of_four(n as int),
        decreases m,
    {
        m = m / 4;
    }
    m == 1
}

/// A power of two is positive.
pub proof fn lemma_power_of_two_positive(n: int)
    requires
        is_power_of_two(n),
    ensures
        n >= 1,
    decreases n,
{
    if n != 1 {
        lemma_power_of_two_positive(n / 2);
    }
}

/// The edge length of a node is a multiple of four, at least four bricks long, and a quarter
/// of an edge longer than that is the edge length of a node again.
pub proof fn lemma_node_size(size: int, dim: int)
    requires
        node_size_ok(size, dim),
        dim >= 1,
    ensures
        size % 4 == 0,
        size >= 4 * dim,
        size / 4 >= dim,
        size > 4 * dim ==> node_size_ok(size / 4, dim) && size / 4 >= 4 * dim,
    decreases size,
{
    if size != 4 * dim {
        lemma_node_size(size / 4, dim);
    }
}

/// An edge length that is the brick dimension times a power of four, and at least four
/// bricks long, is the edge length of a node.
pub proof fn lemma_size_of_ratio(size: int, dim: int)
    requires
        dim >= 1,
        size % dim == 0,
        is_power_of_four(size / dim),
        size / dim >= 4,
    ensures
        node_size_ok(size, dim),
    decreases size,
{
    let ratio = size / dim;
    assert(size == ratio * dim) by (nonlinear_arith)
        requires
            size % dim == 0,
            ratio == size / dim,
            dim >= 1,
    ;
    if ratio == 4 {
    } else {
        assert(ratio % 4 == 0 && is_power_of_four(ratio / 4));
        let quarter = ratio / 4;
        assert(quarter != 1) by {
            if quarter == 1 {
                assert(ratio == 4);
            }
        }
        assert(quarter > 1 && quarter % 4 == 0);
        assert(size == 4 * (quarter * dim)) by (nonlinear_arith)
            requires
                size == ratio * dim,
                ratio == 4 * quarter,
        ;
        assert(quarter * dim > dim) by (nonlinear_arith)
            requires
                quarter > 1,
                dim >= 1,
        ;
        assert(size % 4 == 0 && size / 4 == quarter * dim && size > 4 * dim);
        assert((quarter * dim) % dim == 0 && (quarter * dim) / dim == quarter) by (nonlinear_arith)
            requires
                dim >= 1,
        ;
        lemma_size_of_ratio(size / 4, dim);
    }
}

} // verus!
