//! The operations that change what a tree holds: insert, update and clear, for single
//! voxels and for cubes of voxels.
use vstd::prelude::*;
use crate::brick_update::{lemma_written_in_palettes, written_value};
use crate::palette::{
    color_index_of, data_index_of, entry_of, has_color, has_data, index_in_palettes,
    lemma_index_halves, overwritten_by,
};
use crate::palette_store::{palette_full_for, palette_with, refers_to};
use crate::spatial::{Cube, V3c};
use crate::tree::Contree;
use crate::types::{
    ContreeEntry, ContreeError, PaletteIndexValues, VoxelContent, VoxelData, EMPTY_MARKER,
    NO_INDEX,
};
use crate::update::DIVISIBLE_SLOTS;

verus! {

impl<T: VoxelData> Contree<T> {
    /// The other tree holds at the position the value written over what this tree holds
    /// there, and at every other position what this tree holds.
    pub open spec fn wrote_voxel(
        &self,
        after: &Self,
        overwrite: bool,
        data: PaletteIndexValues,
        px: int,
        py: int,
        pz: int,
    ) -> bool {
        forall|x: int, y: int, z: int|
            #[trigger] after.voxel(x, y, z) == (if x == px && y == py && z == pz {
                written_value(overwrite, self.voxel(x, y, z), data)
            } else {
                self.voxel(x, y, z)
            })
    }

    /// The other tree holds at every position what this tree holds.
    pub open spec fn same_voxels_as(&self, after: &Self) -> bool {
        forall|x: int, y: int, z: int| #[trigger] after.voxel(x, y, z) == self.voxel(x, y, z)
    }

    /// Writes a value into the tree at a position: into one voxel, or into the voxels of a
    /// cube that starts at the position.
    pub fn apply_update(
        &mut self,
        overwrite_if_empty: bool,
        position: &V3c<u32>,
        size: u32,
        target_content: PaletteIndexValues,
    ) -> (r: Result<(), ContreeError>)
        requires
            old(self).wf(),
            index_in_palettes(
                target_content,
                old(self).voxel_color_palette.len() as int,
                old(self).voxel_data_palette.len() as int,
            ),
        ensures
            final(self).wf(),
            final(self).same_settings_as(old(self)),
            match r {
                Err(ContreeError::InvalidPosition { x, y, z }) => {
                    &&& !old(self).root_cube().contains_point(
                        position.x as int,
                        position.y as int,
                        position.z as int,
                    )
                    &&& x == position.x && y == position.y && z == position.z
                    &&& *final(self) == *old(self)
                },
                Err(ContreeError::InvalidStructure(_)) => {
                    &&& old(self).root_cube().contains_point(
                        position.x as int,
                        position.y as int,
                        position.z as int,
                    )
                    &&& size >= 1
                    &&& old(self).nodes.slots() + 1024 > DIVISIBLE_SLOTS
                    &&& old(self).same_voxels_as(final(self))
                },
                Err(_) => false,
                Ok(()) => {
                    &&& old(self).root_cube().contains_point(
                        position.x as int,
                        position.y as int,
                        position.z as int,
                    )
                    &&& size == 0 ==> *final(self) == *old(self)
                    &&& size >= 1 ==> old(self).bulk_written(
                        final(self),
                        0,
                        old(self).root_cube(),
                        overwrite_if_empty,
                        target_content,
                        position.x as int,
                        position.y as int,
                        position.z as int,
                        size as int,
                    )
                    &&& size == 1 ==> old(self).wrote_voxel(
                        final(self),
                        overwrite_if_empty,
                        target_content,
                        position.x as int,
                        position.y as int,
                        position.z as int,
                    )
                    &&& (size >= 1 && overwrite_if_empty) ==> final(self).voxel(
                        position.x as int,
                        position.y as int,
                        position.z as int,
                    ) == target_content
                },
            },
    {
        let root_bounds: Cube = Cube::root_bounds(self.contree_size);
        let ghost root = self.root_cube();
        let ghost px = position.x as int;
        let ghost py = position.y as int;
        let ghost pz = position.z as int;
        if !root_bounds.contains(position) {
            return Err(
                ContreeError::InvalidPosition { x: position.x, y: position.y, z: position.z },
            );
        }
        if size == 0 {
            return Ok(());
        }
        let written: Result<(), ()> = self.write_node(
            overwrite_if_empty,
            Self::ROOT_NODE_KEY as usize,
            &root_bounds,
            position,
            size,
            target_content,
        );
        let ghost after_write = *self;
        proof {
            crate::tree::lemma_power_of_two_positive(self.dim());
            crate::write::lemma_levels_of_tree(self.contree_size, self.dim());
        }
        if written.is_err() {
            return Err(
                ContreeError::InvalidStructure("the tree has no node keys left".to_string()),
            );
        }
        if self.auto_simplify {
            let simplified: bool = self.simplify_path(
                Self::ROOT_NODE_KEY as usize,
                &root_bounds,
                position,
            );
            proof {
                assert forall|x: int, y: int, z: int| #[trigger]
                    self.voxel(x, y, z) == after_write.voxel(x, y, z) by {
                    if root.contains_point(x, y, z) {
                        assert(self.voxel_in(0, root, x, y, z) == after_write.voxel_in(
                            0,
                            root,
                            x,
                            y,
                            z,
                        ));
                    }
                }
                assert(self.voxel(px, py, pz) == after_write.voxel(px, py, pz));
            }
        }
        proof {
            old(self).lemma_bulk_kept(
                &after_write,
                self,
                overwrite_if_empty,
                target_content,
                px,
                py,
                pz,
                size as int,
            );
        }
        Ok(())
    }

    /// A write into the tree is the same write for a tree that shows afterwards what the
    /// tree shows after the write.
    pub proof fn lemma_bulk_kept(
        &self,
        written: &Self,
        after: &Self,
        overwrite: bool,
        data: PaletteIndexValues,
        px: int,
        py: int,
        pz: int,
        size: int,
    )
        requires
            self.bulk_written(written, 0, self.root_cube(), overwrite, data, px, py, pz, size),
            forall|x: int, y: int, z: int|
                self.root_cube().contains_point(x, y, z) ==> #[trigger] after.voxel_in(
                    0,
                    self.root_cube(),
                    x,
                    y,
                    z,
                ) == written.voxel_in(0, self.root_cube(), x, y, z),
        ensures
            self.bulk_written(after, 0, self.root_cube(), overwrite, data, px, py, pz, size),
    {
        let root = self.root_cube();
        if self.write_stops(0, root, px, py, pz, crate::write::max_int(size, self.dim()))
            && written_value(overwrite, self.voxel_in(0, root, px, py, pz), data)
            == self.voxel_in(0, root, px, py, pz) {
            assert forall|x: int, y: int, z: int|
                root.contains_point(x, y, z) implies #[trigger] after.voxel_in(0, root, x, y, z)
                == self.voxel_in(0, root, x, y, z) by {
                assert(written.voxel_in(0, root, x, y, z) == self.voxel_in(0, root, x, y, z));
            }
        } else {
            let steps = choose|steps: Seq<VoxelContent>| #[trigger]
                self.taken_by(written, 0, root, steps, overwrite, data, px, py, pz, size);
            let cube = self.taker_cube(
                0,
                root,
                px,
                py,
                pz,
                crate::write::max_int(size, self.dim()),
            );
            assert forall|x: int, y: int, z: int|
                root.contains_point(x, y, z) implies #[trigger] after.voxel_in(0, root, x, y, z)
                == (if cube.contains_point(x, y, z) {
                crate::tree::content_voxel(steps.last(), cube, self.dim(), x, y, z)
            } else {
                self.voxel_in(0, root, x, y, z)
            }) by {
                assert(written.voxel_in(0, root, x, y, z) == after.voxel_in(0, root, x, y, z));
            }
            assert(self.taken_by(after, 0, root, steps, overwrite, data, px, py, pz, size));
        }
    }

    /// Two trees with the same nodes have the same paths to a position.
    pub proof fn lemma_same_nodes_path_end(
        &self,
        other: &Self,
        key: int,
        bounds: Cube,
        px: int,
        py: int,
        pz: int,
    )
        requires
            other.same_nodes_as(self),
        ensures
            other.path_end(key, bounds, px, py, pz) == self.path_end(key, bounds, px, py, pz),
        decreases bounds.size,
    {
        let sectant = bounds.sectant_of(px, py, pz);
        let child = self.node_children[key].child_key(sectant);
        if self.nodes.valid(child) && bounds.size >= 4 {
            self.lemma_same_nodes_path_end(
                other,
                child,
                bounds.child_cube(sectant),
                px,
                py,
                pz,
            );
        }
    }

    /// A write into a tree is the same write for a tree with the same nodes.
    pub proof fn lemma_same_nodes_bulk(
        &self,
        other: &Self,
        after: &Self,
        overwrite: bool,
        data: PaletteIndexValues,
        px: int,
        py: int,
        pz: int,
        size: int,
    )
        requires
            other.same_nodes_as(self),
            other.bulk_written(after, 0, other.root_cube(), overwrite, data, px, py, pz, size),
        ensures
            self.bulk_written(after, 0, self.root_cube(), overwrite, data, px, py, pz, size),
    {
        let root = self.root_cube();
        self.lemma_same_nodes_path_end(other, 0, root, px, py, pz);
        assert forall|x: int, y: int, z: int| #[trigger]
            other.voxel_in(0, root, x, y, z) == self.voxel_in(0, root, x, y, z) by {
            self.lemma_same_nodes_voxel_in(other, 0, root, x, y, z);
        }
        if other.write_stops(0, root, px, py, pz, crate::write::max_int(size, self.dim()))
            && written_value(overwrite, other.voxel_in(0, root, px, py, pz), data)
            == other.voxel_in(0, root, px, py, pz) {
        } else {
            let steps = choose|steps: Seq<VoxelContent>| #[trigger]
                other.taken_by(after, 0, root, steps, overwrite, data, px, py, pz, size);
            assert(self.taken_by(after, 0, root, steps, overwrite, data, px, py, pz, size));
        }
    }

    /// The value refers to the color and the data that the tree keeps of the entry.
    pub open spec fn stands_for(&self, index: PaletteIndexValues, entry: ContreeEntry<T>) -> bool {
        &&& refers_to(color_index_of(index), self.voxel_color_palette@, entry.kept_color())
        &&& refers_to(data_index_of(index), self.voxel_data_palette@, entry.kept_data())
    }

    /// The palettes of the tree are those of the other tree after the color and the data of
    /// the entry were offered to them.
    pub open spec fn palettes_took(&self, before: &Self, entry: ContreeEntry<T>) -> bool {
        &&& self.voxel_color_palette@ == palette_with(
            before.voxel_color_palette@,
            entry.kept_color(),
        )
        &&& self.voxel_data_palette@ == palette_with(
            before.voxel_data_palette@,
            entry.kept_data(),
        )
    }

    /// A palette has no room for the color or the data of the entry.
    pub open spec fn palettes_full_for(&self, entry: ContreeEntry<T>) -> bool {
        palette_full_for(self.voxel_color_palette@, entry.kept_color()) || palette_full_for(
            self.voxel_data_palette@,
            entry.kept_data(),
        )
    }

    /// What an operation on the tree returns and leaves behind: the error for a position
    /// outside of the tree, with the tree as it was; the error for a tree that cannot take the
    /// entry, because a palette is full or because fewer than 1024 node keys are left for the
    /// nodes to add, with all voxels as they were; or success, with the palettes grown by what
    /// was new in the entry.
    pub open spec fn operation_outcome(
        &self,
        after: &Self,
        r: Result<(), ContreeError>,
        entry: ContreeEntry<T>,
        px: int,
        py: int,
        pz: int,
    ) -> bool {
        match r {
            Err(ContreeError::InvalidPosition { x, y, z }) => {
                &&& !self.root_cube().contains_point(px, py, pz)
                &&& x == px && y == py && z == pz
                &&& *after == *self
            },
            Err(ContreeError::InvalidStructure(_)) => {
                &&& self.root_cube().contains_point(px, py, pz)
                &&& self.palettes_full_for(entry) || self.nodes.slots() + 1024 > DIVISIBLE_SLOTS
                &&& self.same_voxels_as(after)
            },
            Err(_) => false,
            Ok(()) => {
                &&& self.root_cube().contains_point(px, py, pz)
                &&& !self.palettes_full_for(entry)
                &&& after.palettes_took(self, entry)
                &&& after.contree_size == self.contree_size
                &&& after.chunk_dim == self.chunk_dim
                &&& after.auto_simplify == self.auto_simplify
            },
        }
    }

    /// Inserts the entry at the position: the color and the data of the entry overwrite
    /// whatever the position held. A transparent color and empty data count as none, so an
    /// entry of those clears the position.
    ///
    /// Afterwards the position holds the entry, and every other position what it held.
    pub fn insert(&mut self, position: &V3c<u32>, data: &ContreeEntry<T>) -> (r: Result<
        (),
        ContreeError,
    >)
        requires
            old(self).wf(),
        ensures
            final(self).wf(),
            old(self).operation_outcome(
                final(self),
                r,
                *data,
                position.x as int,
                position.y as int,
                position.z as int,
            ),
            r is Ok ==> {
                &&& final(self).entry_at(
                    position.x as int,
                    position.y as int,
                    position.z as int,
                ).color() == data.kept_color()
                &&& final(self).entry_at(
                    position.x as int,
                    position.y as int,
                    position.z as int,
                ).user_data() == data.kept_data()
                &&& forall|x: int, y: int, z: int|
                    !(x == position.x && y == position.y && z == position.z)
                        ==> #[trigger] final(self).entry_at(x, y, z) == old(self).entry_at(
                        x,
                        y,
                        z,
                    )
            },
    {
        let r: Result<(), ContreeError> = self.insert_at_lod(position, 1, data);
        proof {
            if r is Ok {
                self.lemma_palettes_grow(old(self), *data);
                assert forall|x: int, y: int, z: int|
                    !(x == position.x && y == position.y
                        && z == position.z) implies #[trigger] self.entry_at(
                    x,
                    y,
                    z,
                ) == old(self).entry_at(x, y, z) by {
                    assert(self.voxel(x, y, z) == old(self).voxel(x, y, z));
                    old(self).lemma_entry_kept(self, x, y, z);
                }
            }
        }
        r
    }

    /// Inserts the entry into the voxels of a cube that starts at the position and has the
    /// given edge length. The cube is cut off at the faces of the tree and of the nodes
    /// it reaches; the extent applied inside a node is the same on all axes, the smallest
    /// that is left on any of them, so voxels near faces that the cube is not aligned with can
    /// be left out. Nodes larger than a brick take the entry at the resolution of their brick.
    ///
    /// Afterwards the position itself holds the entry. An edge length of zero changes
    /// nothing; an edge length of one is `insert`. One node on the path to the position
    /// takes the update, sectant by sectant (`bulk_written`); where the update starts at a
    /// corner of a sectant of that node and is whole sectants long, it fills its cube
    /// (`lemma_bulk_fills`).
    pub fn insert_at_lod(
        &mut self,
        position: &V3c<u32>,
        insert_size: u32,
        data: &ContreeEntry<T>,
    ) -> (r: Result<(), ContreeError>)
        requires
            old(self).wf(),
        ensures
            final(self).wf(),
            old(self).operation_outcome(
                final(self),
                r,
                *data,
                position.x as int,
                position.y as int,
                position.z as int,
            ),
            (r is Ok && insert_size >= 1) ==> final(self).stands_for(
                final(self).voxel(position.x as int, position.y as int, position.z as int),
                *data,
            ),
            (r is Ok && insert_size >= 1) ==> (final(self).entry_at(
                position.x as int,
                position.y as int,
                position.z as int,
            ).color() == data.kept_color() && final(self).entry_at(
                position.x as int,
                position.y as int,
                position.z as int,
            ).user_data() == data.kept_data()),
            (r is Ok && insert_size == 1) ==> forall|x: int, y: int, z: int|
                !(x == position.x && y == position.y && z == position.z)
                    ==> #[trigger] final(self).voxel(x, y, z) == old(self).voxel(x, y, z),
            (r is Ok && insert_size == 0) ==> old(self).same_voxels_as(final(self)),
            // the value that the position holds afterwards is written into the cube, as far as
            // the update reaches in the node that takes it
            (r is Ok && insert_size >= 1) ==> old(self).bulk_written(
                final(self),
                0,
                old(self).root_cube(),
                true,
                final(self).voxel(position.x as int, position.y as int, position.z as int),
                position.x as int,
                position.y as int,
                position.z as int,
                insert_size as int,
            ),
    {
        let root_bounds: Cube = Cube::root_bounds(self.contree_size);
        if !root_bounds.contains(position) {
            return Err(
                ContreeError::InvalidPosition { x: position.x, y: position.y, z: position.z },
            );
        }
        let added: Option<PaletteIndexValues> = self.add_to_palette(data);
        proof {
            old(self).lemma_same_nodes_voxels(self);
        }
        let target_content: PaletteIndexValues = match added {
            Some(index) => index,
            None => {
                return Err(
                    ContreeError::InvalidStructure("a palette of the tree is full".to_string()),
                );
            },
        };
        let ghost with_palette = *self;
        let r: Result<(), ContreeError> = self.apply_update(
            true,
            position,
            insert_size,
            target_content,
        );
        proof {
            if r is Ok && insert_size >= 1 && self.voxel(
                position.x as int,
                position.y as int,
                position.z as int,
            ) == target_content {
                self.lemma_entry_of_stored(target_content, *data);
            }
            if r is Ok && insert_size >= 1 {
                old(self).lemma_same_nodes_bulk(
                    &with_palette,
                    self,
                    true,
                    target_content,
                    position.x as int,
                    position.y as int,
                    position.z as int,
                    insert_size as int,
                );
            }
        }
        r
    }

    /// Updates the position with the color and the data of the entry, as far as the entry
    /// holds them: a color overwrites the color of the position and leaves its data, data
    /// overwrites the data and leaves the color. A transparent color and empty data count as
    /// none; an entry without either changes nothing.
    ///
    /// Every other position holds afterwards what it held.
    pub fn update(&mut self, position: &V3c<u32>, data: &ContreeEntry<T>) -> (r: Result<
        (),
        ContreeError,
    >)
        requires
            old(self).wf(),
        ensures
            final(self).wf(),
            old(self).operation_outcome(
                final(self),
                r,
                *data,
                position.x as int,
                position.y as int,
                position.z as int,
            ),
            r is Ok ==> {
                let held = old(self).voxel(position.x as int, position.y as int, position.z as int);
                let holds = final(self).voxel(
                    position.x as int,
                    position.y as int,
                    position.z as int,
                );
                &&& data.kept_color() is Some ==> refers_to(
                    color_index_of(holds),
                    final(self).voxel_color_palette@,
                    data.kept_color(),
                )
                &&& data.kept_color() is None ==> color_index_of(holds) == color_index_of(held)
                &&& data.kept_data() is Some ==> refers_to(
                    data_index_of(holds),
                    final(self).voxel_data_palette@,
                    data.kept_data(),
                )
                &&& data.kept_data() is None ==> data_index_of(holds) == data_index_of(held)
                &&& final(self).entry_at(
                    position.x as int,
                    position.y as int,
                    position.z as int,
                ).color() == (if data.kept_color() is Some {
                    data.kept_color()
                } else {
                    old(self).entry_at(
                        position.x as int,
                        position.y as int,
                        position.z as int,
                    ).color()
                })
                &&& final(self).entry_at(
                    position.x as int,
                    position.y as int,
                    position.z as int,
                ).user_data() == (if data.kept_data() is Some {
                    data.kept_data()
                } else {
                    old(self).entry_at(
                        position.x as int,
                        position.y as int,
                        position.z as int,
                    ).user_data()
                })
                &&& forall|x: int, y: int, z: int|
                    !(x == position.x && y == position.y && z == position.z)
                        ==> #[trigger] final(self).entry_at(x, y, z) == old(self).entry_at(
                        x,
                        y,
                        z,
                    )
            },
    {
        let root_bounds: Cube = Cube::root_bounds(self.contree_size);
        if !root_bounds.contains(position) {
            return Err(
                ContreeError::InvalidPosition { x: position.x, y: position.y, z: position.z },
            );
        }
        let added: Option<PaletteIndexValues> = self.add_to_palette(data);
        proof {
            old(self).lemma_same_nodes_voxels(self);
        }
        let target_content: PaletteIndexValues = match added {
            Some(index) => index,
            None => {
                return Err(
                    ContreeError::InvalidStructure("a palette of the tree is full".to_string()),
                );
            },
        };
        let ghost px = position.x as int;
        let ghost py = position.y as int;
        let ghost pz = position.z as int;
        proof {
            lemma_overwritten_halves(old(self).voxel(px, py, pz), target_content);
        }
        let r: Result<(), ContreeError> = self.apply_update(false, position, 1, target_content);
        proof {
            if r is Ok {
                self.lemma_palettes_grow(old(self), *data);
                old(self).lemma_voxel_in_palettes(0, old(self).root_cube(), px, py, pz);
                let held = old(self).voxel(px, py, pz);
                crate::palette_store::lemma_entry_in_longer_palettes::<T>(
                    held,
                    old(self).voxel_color_palette@,
                    old(self).voxel_data_palette@,
                    self.voxel_color_palette@,
                    self.voxel_data_palette@,
                );
                assert forall|x: int, y: int, z: int|
                    !(x == position.x && y == position.y
                        && z == position.z) implies #[trigger] self.entry_at(
                    x,
                    y,
                    z,
                ) == old(self).entry_at(x, y, z) by {
                    assert(self.voxel(x, y, z) == old(self).voxel(x, y, z));
                    old(self).lemma_entry_kept(self, x, y, z);
                }
            }
        }
        r
    }

    /// Clears the position: it holds nothing afterwards, and every other position what it
    /// held.
    pub fn clear(&mut self, position: &V3c<u32>) -> (r: Result<(), ContreeError>)
        requires
            old(self).wf(),
        ensures
            final(self).wf(),
            old(self).operation_outcome(
                final(self),
                r,
                ContreeEntry::Empty,
                position.x as int,
                position.y as int,
                position.z as int,
            ),
            r is Ok ==> {
                &&& final(self).entry_at(
                    position.x as int,
                    position.y as int,
                    position.z as int,
                ) == ContreeEntry::<T>::Empty
                &&& forall|x: int, y: int, z: int|
                    !(x == position.x && y == position.y && z == position.z)
                        ==> #[trigger] final(self).entry_at(x, y, z) == old(self).entry_at(
                        x,
                        y,
                        z,
                    )
            },
    {
        let r: Result<(), ContreeError> = self.clear_at_lod(position, 1);
        proof {
            if r is Ok {
                assert forall|x: int, y: int, z: int|
                    !(x == position.x && y == position.y
                        && z == position.z) implies #[trigger] self.entry_at(
                    x,
                    y,
                    z,
                ) == old(self).entry_at(x, y, z) by {
                    assert(self.voxel(x, y, z) == old(self).voxel(x, y, z));
                    old(self).lemma_entry_kept(self, x, y, z);
                }
            }
        }
        r
    }

    /// Clears the voxels of a cube that starts at the position and has the given edge
    /// length, cut off and applied as `insert_at_lod` does. Afterwards the position itself
    /// holds nothing. An edge length of zero changes nothing; an edge length of one is
    /// `clear`.
    pub fn clear_at_lod(&mut self, position: &V3c<u32>, clear_size: u32) -> (r: Result<
        (),
        ContreeError,
    >)
        requires
            old(self).wf(),
        ensures
            final(self).wf(),
            old(self).operation_outcome(
                final(self),
                r,
                ContreeEntry::Empty,
                position.x as int,
                position.y as int,
                position.z as int,
            ),
            (r is Ok && clear_size >= 1)
                ==> final(self).voxel(position.x as int, position.y as int, position.z as int)
                == EMPTY_MARKER,
            (r is Ok && clear_size == 1) ==> forall|x: int, y: int, z: int|
                !(x == position.x && y == position.y && z == position.z)
                    ==> #[trigger] final(self).voxel(x, y, z) == old(self).voxel(x, y, z),
            (r is Ok && clear_size >= 1) ==> final(self).entry_at(
                position.x as int,
                position.y as int,
                position.z as int,
            ) == ContreeEntry::<T>::Empty,
            (r is Ok && clear_size == 0) ==> old(self).same_voxels_as(final(self)),
            // the empty marker is written into the cube, as far as the update reaches in the
            // node that takes it
            (r is Ok && clear_size >= 1) ==> old(self).bulk_written(
                final(self),
                0,
                old(self).root_cube(),
                true,
                EMPTY_MARKER,
                position.x as int,
                position.y as int,
                position.z as int,
                clear_size as int,
            ),
    {
        self.apply_update(true, position, clear_size, EMPTY_MARKER)
    }

    /// The value that a subtree of a well formed tree holds at a position refers to entries
    /// of the palettes, or to none.
    pub proof fn lemma_voxel_in_palettes(&self, key: int, bounds: Cube, x: int, y: int, z: int)
        requires
            self.wf(),
            key == EMPTY_MARKER || (self.nodes.valid(key) && bounds == self.node_bounds@[key]),
            bounds.contains_point(x, y, z),
        ensures
            index_in_palettes(
                self.voxel_in(key, bounds, x, y, z),
                self.voxel_color_palette.len() as int,
                self.voxel_data_palette.len() as int,
            ),
        decreases bounds.size,
    {
        if key != EMPTY_MARKER {
            assert(self.node_ok(key));
            self.lemma_node_geometry(key, x, y, z);
            let sectant = bounds.sectant_of(x, y, z);
            match self.nodes.item(key) {
                VoxelContent::Internal(_) => {
                    assert(self.link_ok(key, sectant));
                    self.lemma_voxel_in_palettes(
                        self.node_children[key].child_key(sectant),
                        bounds.child_cube(sectant),
                        x,
                        y,
                        z,
                    );
                },
                VoxelContent::Leaf(bricks) => {
                    assert(bricks[sectant].in_palettes(
                        self.voxel_color_palette.len() as int,
                        self.voxel_data_palette.len() as int,
                    ));
                    assert(bricks[sectant].wf(self.dim()));
                    lemma_brick_voxel_in_palettes(
                        bricks[sectant],
                        bounds.child_cube(sectant),
                        self.dim(),
                        x,
                        y,
                        z,
                        self.voxel_color_palette.len() as int,
                        self.voxel_data_palette.len() as int,
                    );
                },
                VoxelContent::UniformLeaf(brick) => {
                    lemma_brick_voxel_in_palettes(
                        brick,
                        bounds,
                        self.dim(),
                        x,
                        y,
                        z,
                        self.voxel_color_palette.len() as int,
                        self.voxel_data_palette.len() as int,
                    );
                },
                VoxelContent::Nothing => {},
            }
        }
    }

    /// A tree whose palettes grew at their ends, and which holds at a position the value
    /// that the tree before the growth held there, holds the same entry there.
    pub proof fn lemma_entry_kept(&self, after: &Self, x: int, y: int, z: int)
        requires
            self.wf(),
            self.voxel_color_palette@.is_prefix_of(after.voxel_color_palette@),
            self.voxel_data_palette@.is_prefix_of(after.voxel_data_palette@),
            after.voxel(x, y, z) == self.voxel(x, y, z),
        ensures
            after.entry_at(x, y, z) == self.entry_at(x, y, z),
    {
        if self.root_cube().contains_point(x, y, z) {
            self.lemma_voxel_in_palettes(0, self.root_cube(), x, y, z);
        }
        crate::palette_store::lemma_entry_in_longer_palettes::<T>(
            self.voxel(x, y, z),
            self.voxel_color_palette@,
            self.voxel_data_palette@,
            after.voxel_color_palette@,
            after.voxel_data_palette@,
        );
    }

    /// The entry of a value that refers to the color and the data that the tree keeps of an
    /// entry holds that color and that data.
    pub proof fn lemma_entry_of_stored(&self, index: PaletteIndexValues, entry: ContreeEntry<T>)
        requires
            self.stands_for(index, entry),
        ensures
            entry_of(index, self.voxel_color_palette@, self.voxel_data_palette@).color()
                == entry.kept_color(),
            entry_of(index, self.voxel_color_palette@, self.voxel_data_palette@).user_data()
                == entry.kept_data(),
    {
    }

    /// A palette that took an item holds all it held, in the places it held them.
    pub proof fn lemma_palettes_grow(&self, before: &Self, entry: ContreeEntry<T>)
        requires
            self.palettes_took(before, entry),
        ensures
            before.voxel_color_palette@.is_prefix_of(self.voxel_color_palette@),
            before.voxel_data_palette@.is_prefix_of(self.voxel_data_palette@),
    {
    }

    /// Two trees with the same nodes hold the same values.
    pub proof fn lemma_same_nodes_voxels(&self, other: &Self)
        requires
            other.same_nodes_as(self),
        ensures
            self.same_voxels_as(other),
    {
        assert forall|x: int, y: int, z: int| #[trigger]
            other.voxel(x, y, z) == self.voxel(x, y, z) by {
            if self.root_cube().contains_point(x, y, z) {
                self.lemma_same_nodes_voxel_in(other, 0, self.root_cube(), x, y, z);
            }
        }
    }

    /// Two trees with the same nodes hold the same values in the subtree of a node.
    pub proof fn lemma_same_nodes_voxel_in(&self, other: &Self, key: int, bounds: Cube, x: int,
        y: int, z: int)
        requires
            other.same_nodes_as(self),
        ensures
            other.voxel_in(key, bounds, x, y, z) == self.voxel_in(key, bounds, x, y, z),
        decreases bounds.size,
    {
        if self.nodes.valid(key) && self.nodes.item(key) is Internal && bounds.size >= 4 {
            self.lemma_same_nodes_voxel_in(
                other,
                self.node_children[key].child_key(bounds.sectant_of(x, y, z)),
                bounds.child_cube(bounds.sectant_of(x, y, z)),
                x,
                y,
                z,
            );
        }
    }
}

/// The value that a brick of a well formed node shows at a position refers to entries of the
/// palettes, or to none.
pub proof fn lemma_brick_voxel_in_palettes(
    brick: crate::types::ChunkData,
    bounds: Cube,
    dim: int,
    x: int,
    y: int,
    z: int,
    colors: int,
    data: int,
)
    requires
        0 < dim,
        brick.wf(dim),
        brick.in_palettes(colors, data),
        bounds.contains_point(x, y, z),
    ensures
        index_in_palettes(crate::tree::brick_voxel(brick, bounds, dim, x, y, z), colors, data),
{
    let mx = crate::spatial::matrix_coordinate(
        x - bounds.min_position.x,
        dim,
        bounds.size as int,
    );
    let my = crate::spatial::matrix_coordinate(
        y - bounds.min_position.y,
        dim,
        bounds.size as int,
    );
    let mz = crate::spatial::matrix_coordinate(
        z - bounds.min_position.z,
        dim,
        bounds.size as int,
    );
    crate::spatial::lemma_matrix_coordinate_bound(
        x - bounds.min_position.x,
        dim,
        bounds.size as int,
    );
    crate::spatial::lemma_matrix_coordinate_bound(
        y - bounds.min_position.y,
        dim,
        bounds.size as int,
    );
    crate::spatial::lemma_matrix_coordinate_bound(
        z - bounds.min_position.z,
        dim,
        bounds.size as int,
    );
    crate::spatial::lemma_flat_index_bound(mx, my, mz, dim);
    crate::compaction::lemma_value_in_palettes(
        brick,
        crate::spatial::flat_index(mx, my, mz, dim),
        colors,
        data,
    );
}

/// The halves of a value after the halves that another value holds were written over it.
pub proof fn lemma_overwritten_halves(previous: PaletteIndexValues, data: PaletteIndexValues)
    ensures
        0 <= overwritten_by(previous, data) <= u32::MAX,
        color_index_of(overwritten_by(previous, data) as u32) == (if has_color(data) {
            color_index_of(data)
        } else {
            color_index_of(previous)
        }),
        data_index_of(overwritten_by(previous, data) as u32) == (if has_data(data) {
            data_index_of(data)
        } else {
            data_index_of(previous)
        }),
{
    lemma_index_halves(previous);
    lemma_index_halves(data);
    let c = if has_color(data) {
        color_index_of(data)
    } else {
        color_index_of(previous)
    };
    let d = if has_data(data) {
        data_index_of(data)
    } else {
        data_index_of(previous)
    };
    crate::palette::lemma_packed_halves(c, d);
}

} // verus!
