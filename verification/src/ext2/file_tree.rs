//! The blocks of a file as a tree, on a volume that keeps its metadata
//! apart: when the tree is sound, and what keeps it so.

use crate::bytes::{all_zero, lemma_le_u32_at, zero_bytes};
use crate::ext2::data::indices_fit;
use crate::ext2::tree::indices_bytes;
use crate::ext2::volume::{lemma_block_size_bounds, Volume};
use crate::fs::Error;
use vstd::prelude::*;

verus! {

impl Volume {
    /// The pointer in slot `slot` of the block of pointers `pointer`.
    pub open spec fn child(self, pointer: u64, slot: int) -> u64 {
        self.block_indices(pointer as int)[slot]
    }

    /// Block `block_index` is one of the blocks of the tree under `pointer`:
    /// the block that `pointer` names, and, where the block holds pointers, the
    /// blocks of the trees under these. `height` is the number of blocks of
    /// pointers between `pointer` and the data.
    pub open spec fn in_tree(self, pointer: u64, height: nat, block_index: int) -> bool
        decreases height,
    {
        pointer != 0 && (block_index == pointer || (height > 0 && exists|slot: int|
            0 <= slot < self.indices_per_block() && self.in_tree(
                #[trigger] self.child(pointer, slot),
                (height - 1) as nat,
                block_index,
            )))
    }

    /// The tree under `pointer` is sound: each of its blocks is in use, and
    /// none of them is reached in two ways.
    pub open spec fn tree_ok(self, pointer: u64, height: nat) -> bool
        decreases height,
    {
        pointer == 0 || {
            &&& self.block_in_use(pointer as int)
            &&& height > 0 ==> {
                &&& forall|slot: int|
                    0 <= slot < self.indices_per_block() ==> self.tree_ok(
                        #[trigger] self.child(pointer, slot),
                        (height - 1) as nat,
                    )
                &&& forall|slot: int|
                    0 <= slot < self.indices_per_block() ==> !self.in_tree(
                        #[trigger] self.child(pointer, slot),
                        (height - 1) as nat,
                        pointer as int,
                    )
                &&& forall|slot: int, other: int, block_index: int|
                    0 <= slot < other < self.indices_per_block() && self.in_tree(
                        #[trigger] self.child(pointer, slot),
                        (height - 1) as nat,
                        block_index,
                    ) ==> !#[trigger] self.in_tree(
                        self.child(pointer, other),
                        (height - 1) as nat,
                        block_index,
                    )
            }
        }
    }

    /// What is read at the end of `path`, from the table `table` on: the
    /// block that the slots lead to, zeros for a hole.
    pub open spec fn read_at(self, table: Seq<u64>, path: Seq<u64>) -> Seq<u8> {
        match self.resolve(table, path) {
            Ok(pointer) => if pointer == 0 {
                zero_bytes(self.block_size() as nat)
            } else {
                self.block(pointer as int)
            },
            Err(error) => Seq::empty(),
        }
    }

    /// Every block of a sound tree is in use.
    pub proof fn lemma_tree_blocks_in_use(self, pointer: u64, height: nat, block_index: int)
        requires
            self.tree_ok(pointer, height),
            self.in_tree(pointer, height, block_index),
        ensures
            self.block_in_use(block_index),
        decreases height,
    {
        if block_index != pointer {
            let slot = choose|slot: int|
                0 <= slot < self.indices_per_block() && self.in_tree(
                    #[trigger] self.child(pointer, slot),
                    (height - 1) as nat,
                    block_index,
                );
            self.lemma_tree_blocks_in_use(
                self.child(pointer, slot),
                (height - 1) as nat,
                block_index,
            );
        }
    }

    /// A tree whose blocks are the same in another volume, where everything
    /// is in the same places, is the same tree there, and as sound.
    pub proof fn lemma_tree_frame(self, other: Volume, pointer: u64, height: nat)
        requires
            self.wf(),
            self.same_places(other),
            self.tree_ok(pointer, height),
            forall|block_index: int|
                self.in_tree(pointer, height, block_index) ==> #[trigger] other.block(block_index)
                    == self.block(block_index) && other.block_marked(block_index),
        ensures
            other.tree_ok(pointer, height),
            forall|block_index: int|
                #[trigger] other.in_tree(pointer, height, block_index) == self.in_tree(
                    pointer,
                    height,
                    block_index,
                ),
        decreases height,
    {
        self.lemma_same_places(other);
        if pointer != 0 {
            assert(self.in_tree(pointer, height, pointer as int));
            assert(other.block(pointer as int) == self.block(pointer as int));
            assert(other.block_indices(pointer as int) =~= self.block_indices(pointer as int));
            if height > 0 {
                let below = (height - 1) as nat;
                let n = self.indices_per_block();
                assert forall|slot: int| 0 <= slot < n implies other.child(pointer, slot)
                    == #[trigger] self.child(pointer, slot) && other.tree_ok(
                    self.child(pointer, slot),
                    below,
                ) && (forall|block_index: int| #[trigger]
                    other.in_tree(self.child(pointer, slot), below, block_index) == self.in_tree(
                        self.child(pointer, slot),
                        below,
                        block_index,
                    )) by {
                    let next = self.child(pointer, slot);
                    assert(self.tree_ok(next, below));
                    assert forall|block_index: int|
                        self.in_tree(next, below, block_index) implies #[trigger] other.block(
                        block_index,
                    ) == self.block(block_index) && other.block_marked(block_index) by {
                        assert(self.in_tree(pointer, height, block_index));
                    }
                    self.lemma_tree_frame(other, next, below);
                }
                assert forall|block_index: int| #[trigger]
                    other.in_tree(pointer, height, block_index) == self.in_tree(
                        pointer,
                        height,
                        block_index,
                    ) by {
                    if self.in_tree(pointer, height, block_index) && block_index != pointer {
                        let slot = choose|slot: int|
                            0 <= slot < n && self.in_tree(
                                #[trigger] self.child(pointer, slot),
                                below,
                                block_index,
                            );
                        assert(other.in_tree(other.child(pointer, slot), below, block_index));
                    }
                    if other.in_tree(pointer, height, block_index) && block_index != pointer {
                        let slot = choose|slot: int|
                            0 <= slot < n && other.in_tree(
                                #[trigger] other.child(pointer, slot),
                                below,
                                block_index,
                            );
                        assert(self.in_tree(self.child(pointer, slot), below, block_index));
                    }
                }
                assert forall|slot: int| 0 <= slot < n implies other.tree_ok(
                    #[trigger] other.child(pointer, slot),
                    below,
                ) by {
                    assert(other.child(pointer, slot) == self.child(pointer, slot));
                }
                assert forall|slot: int| 0 <= slot < n implies !other.in_tree(
                    #[trigger] other.child(pointer, slot),
                    below,
                    pointer as int,
                ) by {
                    assert(other.child(pointer, slot) == self.child(pointer, slot));
                    assert(!self.in_tree(self.child(pointer, slot), below, pointer as int));
                }
                assert forall|slot: int, second: int, block_index: int|
                    0 <= slot < second < n && other.in_tree(
                        #[trigger] other.child(pointer, slot),
                        below,
                        block_index,
                    ) implies !#[trigger] other.in_tree(
                    other.child(pointer, second),
                    below,
                    block_index,
                ) by {
                    assert(other.child(pointer, slot) == self.child(pointer, slot));
                    assert(other.child(pointer, second) == self.child(pointer, second));
                    assert(self.in_tree(self.child(pointer, slot), below, block_index));
                    assert(!self.in_tree(self.child(pointer, second), below, block_index));
                }
            }
        }
    }

    /// The slots of `path` after the first lie in blocks of pointers.
    pub open spec fn path_below_fits(self, path: Seq<u64>) -> bool {
        &&& path.len() >= 1
        &&& forall|i: int| 1 <= i < path.len() ==> (#[trigger] path[i]) < self.indices_per_block()
    }

    /// In a sound tree every path leads to a hole or to a block of the tree.
    pub proof fn lemma_resolve_in_tree(self, table: Seq<u64>, path: Seq<u64>)
        requires
            self.path_below_fits(path),
            0 <= path[0] < table.len(),
            self.tree_ok(table[path[0] as int], (path.len() - 1) as nat),
        ensures
            self.resolve(table, path) is Ok,
            self.resolve(table, path)->Ok_0 != 0 ==> self.in_tree(
                table[path[0] as int],
                (path.len() - 1) as nat,
                self.resolve(table, path)->Ok_0 as int,
            ),
        decreases path.len(),
    {
        let pointer = table[path[0] as int];
        let height = (path.len() - 1) as nat;
        if pointer != 0 && path.len() > 1 {
            let rest = path.drop_first();
            let next = self.child(pointer, rest[0] as int);
            assert(rest[0] == path[1]);
            assert forall|i: int| 1 <= i < rest.len() implies (#[trigger] rest[i])
                < self.indices_per_block() by {
                assert(rest[i] == path[i + 1]);
            }
            assert(self.tree_ok(next, (height - 1) as nat));
            self.lemma_resolve_in_tree(self.block_indices(pointer as int), rest);
            let found = self.resolve(table, path)->Ok_0;
            if found != 0 {
                assert(self.in_tree(self.child(pointer, rest[0] as int), (height - 1) as nat, found as int));
            }
        }
    }

    /// What is read through a sound tree whose blocks are the same in another
    /// volume, where everything is in the same places, is the same there.
    pub proof fn lemma_read_frame(self, other: Volume, table: Seq<u64>, path: Seq<u64>)
        requires
            self.wf(),
            self.same_places(other),
            self.path_below_fits(path),
            0 <= path[0] < table.len(),
            self.tree_ok(table[path[0] as int], (path.len() - 1) as nat),
            forall|block_index: int|
                self.in_tree(table[path[0] as int], (path.len() - 1) as nat, block_index)
                    ==> #[trigger] other.block(block_index) == self.block(block_index),
        ensures
            other.resolve(table, path) == self.resolve(table, path),
            other.read_at(table, path) == self.read_at(table, path),
        decreases path.len(),
    {
        self.lemma_same_places(other);
        let pointer = table[path[0] as int];
        let height = (path.len() - 1) as nat;
        if pointer != 0 {
            assert(self.in_tree(pointer, height, pointer as int));
            assert(other.block(pointer as int) == self.block(pointer as int));
            if path.len() > 1 {
                let rest = path.drop_first();
                let next = self.child(pointer, rest[0] as int);
                assert(rest[0] == path[1]);
                assert forall|i: int| 1 <= i < rest.len() implies (#[trigger] rest[i])
                    < self.indices_per_block() by {
                    assert(rest[i] == path[i + 1]);
                }
                assert(self.tree_ok(next, (height - 1) as nat));
                assert(other.block_indices(pointer as int) =~= self.block_indices(pointer as int));
                assert forall|block_index: int|
                    self.in_tree(
                        next,
                        (height - 1) as nat,
                        block_index,
                    ) implies #[trigger] other.block(block_index) == self.block(block_index) by {
                    assert(self.in_tree(pointer, height, block_index));
                }
                self.lemma_read_frame(other, self.block_indices(pointer as int), rest);
            }
        }
    }

    /// A block of pointers that was written holds the pointers that were
    /// written.
    pub proof fn lemma_indices_read_back(self, block_index: int, table: Seq<u64>)
        requires
            self.wf(),
            0 <= block_index < self.block_count(),
            table.len() == self.indices_per_block(),
            indices_fit(table),
        ensures
            indices_bytes(table).len() == self.block_size(),
            self.with_block(block_index, indices_bytes(table)).block_indices(block_index)
                == table,
    {
        lemma_block_size_bounds(self.superblock);
        let bytes = indices_bytes(table);
        self.lemma_with_block_read_back(block_index, bytes);
        let after = self.with_block(block_index, bytes);
        assert forall|slot: int| 0 <= slot < table.len() implies after.block_indices(
            block_index,
        )[slot] == table[slot] by {
            assert(bytes[4 * slot] == crate::bytes::u32_bytes(table[slot] as u32)[0]);
            assert(bytes[4 * slot + 1] == crate::bytes::u32_bytes(table[slot] as u32)[1]);
            assert(bytes[4 * slot + 2] == crate::bytes::u32_bytes(table[slot] as u32)[2]);
            assert(bytes[4 * slot + 3] == crate::bytes::u32_bytes(table[slot] as u32)[3]);
            lemma_le_u32_at(bytes, 4 * slot, table[slot] as u32);
        }
        assert(after.block_indices(block_index) =~= table);
    }

    /// A block of zeros, read as a block of pointers, holds no pointer.
    pub proof fn lemma_zero_block_indices(self, pointer: u64)
        requires
            self.wf(),
            pointer < self.block_count(),
            all_zero(self.block(pointer as int)),
        ensures
            forall|slot: int|
                0 <= slot < self.indices_per_block() ==> #[trigger] self.child(pointer, slot) == 0,
    {
        lemma_block_size_bounds(self.superblock);
        self.lemma_block_in_disk(pointer as int);
        let block = self.block(pointer as int);
        let n = self.indices_per_block();
        assert forall|slot: int| 0 <= slot < n implies #[trigger] self.child(pointer, slot)
            == 0 by {
            assert(block[4 * slot] == 0 && block[4 * slot + 1] == 0 && block[4 * slot + 2] == 0
                && block[4 * slot + 3] == 0);
        }
    }

    /// Block `block_index` is free to be taken: a block of the groups that
    /// holds no metadata and is not marked as used.
    pub open spec fn block_is_free(self, block_index: int) -> bool {
        &&& self.block_in_groups(block_index)
        &&& !self.is_metadata_block(block_index)
        &&& !self.block_marked(block_index)
    }

    /// The table `table` is kept in `holder`, which is no block of the tree
    /// under slot `slot` of the table.
    pub open spec fn holder_ok(
        self,
        table: Seq<u64>,
        holder: Option<u64>,
        slot: int,
        height: nat,
    ) -> bool {
        holder matches Some(holder_index) ==> {
            &&& table.len() == self.indices_per_block()
            &&& self.block_in_use(holder_index as int)
            &&& !self.in_tree(table[slot], height, holder_index as int)
            &&& self.block_indices(holder_index as int) == table
        }
    }

    /// No block that was in use has changed, or is no longer in use, but the
    /// block `holder`.
    pub open spec fn in_use_kept(self, after: Volume, holder: Option<u64>) -> bool {
        forall|kept: int|
            #[trigger] self.block_in_use(kept) && holder != Some(kept as u64) ==> after.block(kept)
                == self.block(kept) && after.block_in_use(kept)
    }

    /// A block of the groups that holds no metadata is not block 0, and its
    /// index fits 32 bits.
    pub proof fn lemma_data_block_index(self, block_index: int)
        requires
            self.wf(),
            self.block_in_groups(block_index),
            !self.is_metadata_block(block_index),
        ensures
            0 < block_index < self.block_count(),
            block_index <= u32::MAX,
    {
        if block_index == 0 {
            self.lemma_group_of_block(0);
            self.lemma_group_range(0);
            assert(self.group_start(0) == 0);
            assert(self.table_block_count() >= 0) by {
                lemma_block_size_bounds(self.superblock);
                vstd::arithmetic::div_mod::lemma_div_pos_is_pos(
                    self.group_count() * 32 + self.block_size() - 1,
                    self.block_size(),
                );
            }
            assert(self.is_copy_block_of(0, 0));
        }
    }

    /// What making sure that a slot names a block does, on a consistent
    /// volume, to a sound tree: the slot names a block whose tree is sound;
    /// where the block is new it was free and holds zeros, else nothing has
    /// changed; no block that was in use has changed but the holder, which
    /// holds the table, and the blocks that hold inodes are what they were.
    pub proof fn lemma_link(
        self,
        table: Seq<u64>,
        holder: Option<u64>,
        slot: int,
        height: nat,
    )
        requires
            self.consistent(),
            0 <= slot < table.len(),
            indices_fit(table),
            self.tree_ok(table[slot], height),
            self.holder_ok(table, holder, slot, height),
            self.link(table, holder, slot).2 is Ok,
        ensures
            ({
                let linked = self.link(table, holder, slot);
                let pointer = linked.2->Ok_0;
                &&& linked.0.consistent()
                &&& self.same_places(linked.0)
                &&& linked.1 == table.update(slot, pointer)
                &&& indices_fit(linked.1)
                &&& 0 < pointer < self.block_count()
                &&& linked.0.tree_ok(pointer, height)
                &&& linked.0.holder_ok(linked.1, holder, slot, height)
                &&& self.in_use_kept(linked.0, holder)
                &&& table[slot] != 0 ==> linked.0 == self && pointer == table[slot]
                &&& table[slot] == 0 ==> self.block_is_free(pointer as int) && all_zero(
                    linked.0.block(pointer as int),
                )
                &&& forall|block_index: int| #[trigger]
                    linked.0.block_is_free(block_index) ==> self.block_is_free(block_index)
                &&& self.inode_blocks_kept(linked.0)
            }),
    {
        let linked = self.link(table, holder, slot);
        let pointer = linked.2->Ok_0;
        if table[slot] != 0 {
            assert(table.update(slot, table[slot]) =~= table);
            assert(self.in_tree(table[slot], height, table[slot] as int));
            self.lemma_data_block_index(table[slot] as int);
            self.lemma_same_places(self);
            self.lemma_inode_blocks_kept_at_rest();
        } else {
            self.lemma_allocate_zeroed_block_effect();
            let taken = self.allocate_zeroed_block().0;
            let table1 = table.update(slot, pointer);
            self.lemma_same_places(taken);
            self.lemma_data_block_index(pointer as int);
            lemma_block_size_bounds(self.superblock);
            assert(indices_fit(table1));
            // nothing in use has changed so far
            self.lemma_group_of_block(pointer as int);
            assert forall|kept: int| #[trigger] self.block_in_use(kept) implies taken.block(kept)
                == self.block(kept) && taken.block_in_use(kept) by {
                self.lemma_in_use_not_special(kept, self.group_of_block(pointer as int));
                assert(kept != pointer);
                assert(taken.block_marked(kept) == self.block_marked(kept));
            }
            assert forall|block_index: int| #[trigger]
                taken.block_is_free(block_index) implies self.block_is_free(block_index) by {
                if block_index != pointer {
                    assert(taken.block_marked(block_index) == self.block_marked(block_index));
                }
            }
            match holder {
                Some(holder_index) => {
                    taken.lemma_indices_read_back(holder_index as int, table1);
                    taken.lemma_data_write_effect(holder_index as int, indices_bytes(table1));
                    let stored = taken.with_block(holder_index as int, indices_bytes(table1));
                    assert(stored == linked.0);
                    taken.lemma_same_places(stored);
                    assert(stored.block(pointer as int) == taken.block(pointer as int));
                    assert(holder_index != pointer);
                    stored.lemma_empty_tree(pointer, height);
                    self.lemma_inode_blocks_kept_through(taken, stored);
                },
                None => {
                    taken.lemma_empty_tree(pointer, height);
                },
            }
        }
    }

    /// A block of zeros that is in use is a sound tree of any height, and the
    /// only block of its tree.
    pub proof fn lemma_empty_tree(self, pointer: u64, height: nat)
        requires
            self.wf(),
            pointer != 0,
            self.block_in_use(pointer as int),
            all_zero(self.block(pointer as int)),
        ensures
            self.tree_ok(pointer, height),
            forall|block_index: int|
                #[trigger] self.in_tree(pointer, height, block_index) <==> block_index == pointer,
    {
        self.lemma_zero_block_indices(pointer);
        if height > 0 {
            let below = (height - 1) as nat;
            assert forall|slot: int| 0 <= slot < self.indices_per_block() implies self.tree_ok(
                #[trigger] self.child(pointer, slot),
                below,
            ) && (forall|block_index: int|
                !self.in_tree(self.child(pointer, slot), below, block_index)) by {
                assert(self.child(pointer, slot) == 0);
                assert(self.tree_ok(0, below));
                assert forall|block_index: int| !self.in_tree(0, below, block_index) by {}
            }
        }
        assert forall|block_index: int| #[trigger]
            self.in_tree(pointer, height, block_index) <==> block_index == pointer by {
            if self.in_tree(pointer, height, block_index) && block_index != pointer {
                let slot = choose|slot: int|
                    0 <= slot < self.indices_per_block() && self.in_tree(
                        #[trigger] self.child(pointer, slot),
                        (height - 1) as nat,
                        block_index,
                    );
                assert(self.child(pointer, slot) == 0);
            }
        }
    }

    /// A block in use is no block of copies, no bitmap, and no block that is
    /// not marked.
    pub proof fn lemma_in_use_not_special(self, block_index: int, group: int)
        requires
            self.wf(),
            self.block_in_use(block_index),
        ensures
            !self.is_copy_block(block_index),
            0 <= block_index < self.block_count(),
            0 <= group < self.group_count() ==> block_index
                != self.descriptors[group].block_bitmap_block_index,
    {
        if self.is_copy_block(block_index) {
            let g = choose|g: int| self.is_copy_block_of(g, block_index);
            assert(self.is_copy_block_of(g, block_index));
        }
        if 0 <= group < self.group_count() && block_index
            == self.descriptors[group].block_bitmap_block_index {
            assert(self.is_table_block_of(group, block_index));
        }
    }

    /// No block that was in use outside the tree under `pointer` has changed,
    /// or is no longer in use, but the block `holder`.
    pub open spec fn outside_kept(
        self,
        after: Volume,
        pointer: u64,
        height: nat,
        holder: Option<u64>,
    ) -> bool {
        forall|kept: int|
            #[trigger] self.block_in_use(kept) && !self.in_tree(pointer, height, kept) && holder
                != Some(kept as u64) ==> after.block(kept) == self.block(kept)
                && after.block_in_use(kept)
    }

    /// What giving back the block of a slot where it holds zeros does, on a
    /// consistent volume, to the sound tree under the slot: where the block
    /// holds zeros it is given back and the slot names nothing; else nothing
    /// changes. No block that was in use outside the tree has changed but the
    /// holder, which holds the table, and the blocks that hold inodes are what
    /// they were.
    pub proof fn lemma_reclaim(
        self,
        table: Seq<u64>,
        holder: Option<u64>,
        slot: int,
        height: nat,
    )
        requires
            self.consistent(),
            0 <= slot < table.len(),
            indices_fit(table),
            table[slot] != 0,
            self.tree_ok(table[slot], height),
            self.holder_ok(table, holder, slot, height),
            self.reclaim(table, holder, slot).2 is Ok,
        ensures
            ({
                let reclaimed = self.reclaim(table, holder, slot);
                let pointer = table[slot];
                &&& reclaimed.0.consistent()
                &&& self.same_places(reclaimed.0)
                &&& indices_fit(reclaimed.1)
                &&& reclaimed.0.tree_ok(reclaimed.1[slot], height)
                &&& reclaimed.0.holder_ok(reclaimed.1, holder, slot, height)
                &&& self.outside_kept(reclaimed.0, pointer, height, holder)
                &&& !all_zero(self.block(pointer as int)) ==> reclaimed.0 == self && reclaimed.1
                    == table
                &&& all_zero(self.block(pointer as int)) ==> reclaimed.1 == table.update(slot, 0)
                    && reclaimed.0.block_is_free(pointer as int)
                &&& forall|block_index: int| #[trigger]
                    reclaimed.0.block_is_free(block_index) ==> self.block_is_free(block_index)
                        || block_index == pointer
                &&& self.inode_blocks_kept(reclaimed.0)
            }),
    {
        let pointer = table[slot];
        assert(self.in_tree(pointer, height, pointer as int));
        if all_zero(self.block(pointer as int)) {
            self.lemma_data_block_index(pointer as int);
            self.lemma_empty_tree(pointer, height);
            self.lemma_free_block_effect(pointer as int);
            let freed = self.free_block(pointer as int).0;
            let table2 = table.update(slot, 0);
            self.lemma_same_places(freed);
            self.lemma_group_of_block(pointer as int);
            assert(indices_fit(table2));
            assert forall|kept: int|
                #[trigger] self.block_in_use(kept) && kept != pointer implies freed.block(kept)
                == self.block(kept) && freed.block_in_use(kept) by {
                self.lemma_in_use_not_special(kept, self.group_of_block(pointer as int));
                assert(freed.block_marked(kept) == self.block_marked(kept));
            }
            assert forall|block_index: int| #[trigger]
                freed.block_is_free(block_index) implies self.block_is_free(block_index)
                || block_index == pointer by {
                if block_index != pointer {
                    assert(freed.block_marked(block_index) == self.block_marked(block_index));
                }
            }
            assert(freed.tree_ok(0, height));
            assert forall|x: int| !freed.in_tree(0, height, x) by {}
            match holder {
                Some(holder_index) => {
                    assert(holder_index != pointer);
                    freed.lemma_indices_read_back(holder_index as int, table2);
                    freed.lemma_data_write_effect(holder_index as int, indices_bytes(table2));
                    let stored = freed.with_block(holder_index as int, indices_bytes(table2));
                    freed.lemma_same_places(stored);
                    assert(stored.tree_ok(0, height));
                    assert forall|x: int| !stored.in_tree(0, height, x) by {}
                    assert forall|block_index: int| #[trigger]
                        stored.block_is_free(block_index) implies self.block_is_free(block_index)
                        || block_index == pointer by {
                        assert(stored.block_marked(block_index) == freed.block_marked(
                            block_index,
                        ));
                        assert(freed.block_is_free(block_index));
                    }
                    self.lemma_inode_blocks_kept_through(freed, stored);
                },
                None => {},
            }
        } else {
            self.lemma_same_places(self);
            self.lemma_inode_blocks_kept_at_rest();
        }
    }

    /// `other` is a path through the tree under the first slot of `path`,
    /// as long as `path`, and not `path`.
    pub open spec fn is_other_path(self, path: Seq<u64>, other: Seq<u64>) -> bool {
        &&& other.len() == path.len()
        &&& other[0] == path[0]
        &&& self.path_below_fits(other)
        &&& other != path
    }

    /// What writing `data` at the end of `path` has done, when it has led
    /// from this volume and the table `table` to the volume `after` and the
    /// table `changed`: the volume is consistent; the table has changed in the
    /// first slot of the path at most; the tree under that slot is sound, and
    /// made of blocks that were in it or were free; the holder holds the table;
    /// no block that was in use outside the tree has changed, and no block
    /// that holds inodes; `data` is read
    /// at the end of the path, and at the end of every other path through the
    /// tree what was read there before.
    pub open spec fn write_effect(
        self,
        table: Seq<u64>,
        holder: Option<u64>,
        path: Seq<u64>,
        data: Seq<u8>,
        after: Volume,
        changed: Seq<u64>,
    ) -> bool {
        let slot = path[0] as int;
        let height = (path.len() - 1) as nat;
        &&& after.consistent()
        &&& self.same_places(after)
        &&& indices_fit(changed)
        &&& changed == table.update(slot, changed[slot])
        &&& after.tree_ok(changed[slot], height)
        &&& after.holder_ok(changed, holder, slot, height)
        &&& self.outside_kept(after, table[slot], height, holder)
        &&& forall|block_index: int| #[trigger]
            after.in_tree(changed[slot], height, block_index) ==> self.in_tree(
                table[slot],
                height,
                block_index,
            ) || self.block_is_free(block_index)
        &&& forall|block_index: int| #[trigger]
            after.block_is_free(block_index) ==> self.block_is_free(block_index) || self.in_tree(
                table[slot],
                height,
                block_index,
            )
        &&& after.read_at(changed, path) == data
        &&& forall|other: Seq<u64>|
            self.is_other_path(path, other) ==> #[trigger] after.read_at(changed, other)
                == self.read_at(table, other)
        &&& self.inode_blocks_kept(after)
    }

    /// What `lemma_write_at` needs of the volume, the table and the path.
    pub open spec fn write_ready(
        self,
        table: Seq<u64>,
        holder: Option<u64>,
        path: Seq<u64>,
        data: Seq<u8>,
    ) -> bool {
        &&& self.consistent()
        &&& data.len() == self.block_size()
        &&& self.path_below_fits(path)
        &&& 0 <= path[0] < table.len()
        &&& indices_fit(table)
        &&& self.tree_ok(table[path[0] as int], (path.len() - 1) as nat)
        &&& self.holder_ok(table, holder, path[0] as int, (path.len() - 1) as nat)
    }

    /// Writing a block of data whose slot is in the table: see `write_effect`.
    pub proof fn lemma_write_at_leaf(
        self,
        table: Seq<u64>,
        holder: Option<u64>,
        path: Seq<u64>,
        data: Seq<u8>,
    )
        requires
            self.write_ready(table, holder, path, data),
            path.len() == 1,
            self.write_at(table, holder, path, data).2 is Ok,
        ensures
            self.write_effect(
                table,
                holder,
                path,
                data,
                self.write_at(table, holder, path, data).0,
                self.write_at(table, holder, path, data).1,
            ),
    {
        let slot = path[0] as int;
        let linked = self.link(table, holder, slot);
        self.lemma_link(table, holder, slot, 0);
        let mid = linked.0;
        let table1 = linked.1;
        let pointer = linked.2->Ok_0;
        self.lemma_same_places(mid);
        lemma_block_size_bounds(self.superblock);
        assert(mid.in_tree(pointer, 0, pointer as int));
        mid.lemma_data_write_effect(pointer as int, data);
        let stored = mid.with_block(pointer as int, data);
        mid.lemma_same_places(stored);
        assert(stored.tree_ok(pointer, 0));
        assert(stored.holder_ok(table1, holder, slot, 0)) by {
            match holder {
                Some(holder_index) => {
                    assert(holder_index != pointer);
                    assert(stored.block(holder_index as int) == mid.block(holder_index as int));
                    assert(stored.block_indices(holder_index as int) =~= mid.block_indices(
                        holder_index as int,
                    ));
                },
                None => {},
            }
        }
        stored.lemma_reclaim(table1, holder, slot, 0);
        let written = self.write_at(table, holder, path, data);
        let after = written.0;
        let changed = written.1;
        assert(written == stored.reclaim(table1, holder, slot));
        stored.lemma_same_places(after);
        assert(self.inode_blocks_kept(after)) by {
            self.lemma_inode_blocks_kept_through(mid, stored);
            assert(self.same_places(stored));
            self.lemma_inode_blocks_kept_through(stored, after);
        }
        assert(changed =~= table.update(slot, changed[slot]));
        assert(self.outside_kept(after, table[slot], 0, holder)) by {
            assert forall|kept: int|
                #[trigger] self.block_in_use(kept) && !self.in_tree(table[slot], 0, kept) && holder
                    != Some(kept as u64) implies after.block(kept) == self.block(kept)
                && after.block_in_use(kept) by {
                assert(mid.block(kept) == self.block(kept) && mid.block_in_use(kept));
                assert(kept != pointer);
                assert(stored.block(kept) == mid.block(kept));
                assert(stored.block_in_use(kept));
                assert(!stored.in_tree(pointer, 0, kept));
            }
        }
        assert forall|other: Seq<u64>| self.is_other_path(path, other) implies #[trigger] after.read_at(
            changed,
            other,
        ) == self.read_at(table, other) by {
            assert(other =~= path);
        }
        if all_zero(stored.block(pointer as int)) {
            assert(data =~= zero_bytes(self.block_size() as nat));
        }
        assert forall|block_index: int| #[trigger]
            after.block_is_free(block_index) implies self.block_is_free(block_index)
            || self.in_tree(table[slot], 0, block_index) by {
            if block_index != pointer {
                assert(stored.block_is_free(block_index));
                assert(stored.block_marked(block_index) == mid.block_marked(block_index));
                assert(mid.block_is_free(block_index));
            }
        }
    }

    /// A block of the tree under a slot of a block of pointers is a block of
    /// the tree under that block.
    pub proof fn lemma_in_child_tree(self, pointer: u64, height: nat, slot: int, block_index: int)
        requires
            pointer != 0,
            height > 0,
            0 <= slot < self.indices_per_block(),
            self.in_tree(self.child(pointer, slot), (height - 1) as nat, block_index),
        ensures
            self.in_tree(pointer, height, block_index),
    {
    }

    /// The tree under a block of pointers, after a write through one of its
    /// slots that kept every block in use outside the tree under the slot, and
    /// left under the slot a sound tree made of blocks that were in it or were
    /// free: the tree under the block is sound, and made of blocks that were in
    /// it or were free.
    pub proof fn lemma_rebuilt_tree(
        self,
        after: Volume,
        pointer: u64,
        height: nat,
        slot: int,
    )
        requires
            self.consistent(),
            self.same_places(after),
            height > 0,
            pointer != 0,
            0 <= slot < self.indices_per_block(),
            self.tree_ok(pointer, height),
            after.block_in_use(pointer as int),
            after.block_indices(pointer as int) == self.block_indices(pointer as int).update(
                slot,
                after.child(pointer, slot),
            ),
            after.tree_ok(after.child(pointer, slot), (height - 1) as nat),
            !after.in_tree(after.child(pointer, slot), (height - 1) as nat, pointer as int),
            self.outside_kept(after, self.child(pointer, slot), (height - 1) as nat, Some(pointer)),
            forall|block_index: int| #[trigger]
                after.in_tree(after.child(pointer, slot), (height - 1) as nat, block_index)
                    ==> self.in_tree(self.child(pointer, slot), (height - 1) as nat, block_index)
                    || self.block_is_free(block_index),
        ensures
            after.tree_ok(pointer, height),
            forall|block_index: int| #[trigger]
                after.in_tree(pointer, height, block_index) ==> self.in_tree(
                    pointer,
                    height,
                    block_index,
                ) || self.block_is_free(block_index),
            forall|other: int, block_index: int|
                0 <= other < self.indices_per_block() && other != slot ==> after.child(
                    pointer,
                    other,
                ) == self.child(pointer, other) && (#[trigger] after.in_tree(
                    self.child(pointer, other),
                    (height - 1) as nat,
                    block_index,
                ) == self.in_tree(self.child(pointer, other), (height - 1) as nat, block_index)),
    {
        let below = (height - 1) as nat;
        let n = self.indices_per_block();
        self.lemma_same_places(after);
        // the trees under the other slots are as they were
        assert forall|other: int| 0 <= other < n && other != slot implies after.child(
            pointer,
            other,
        ) == #[trigger] self.child(pointer, other) && after.tree_ok(
            self.child(pointer, other),
            below,
        ) && (forall|block_index: int| #[trigger]
            after.in_tree(self.child(pointer, other), below, block_index) == self.in_tree(
                self.child(pointer, other),
                below,
                block_index,
            )) by {
            let next = self.child(pointer, other);
            assert(self.tree_ok(next, below));
            assert forall|block_index: int|
                self.in_tree(next, below, block_index) implies #[trigger] after.block(block_index)
                == self.block(block_index) && after.block_marked(block_index) by {
                self.lemma_tree_blocks_in_use(next, below, block_index);
                self.lemma_sibling_apart(pointer, height, slot, other, block_index);
                assert(self.block_in_use(block_index));
            }
            self.lemma_tree_frame(after, next, below);
        }
        assert forall|s: int| 0 <= s < n implies after.tree_ok(
            #[trigger] after.child(pointer, s),
            below,
        ) by {
            if s != slot {
                assert(after.child(pointer, s) == self.child(pointer, s));
            }
        }
        assert forall|s: int| 0 <= s < n implies !after.in_tree(
            #[trigger] after.child(pointer, s),
            below,
            pointer as int,
        ) by {
            if s != slot {
                assert(after.child(pointer, s) == self.child(pointer, s));
                assert(!self.in_tree(self.child(pointer, s), below, pointer as int));
            }
        }
        assert forall|s: int, other: int, block_index: int|
            0 <= s < other < n && after.in_tree(
                #[trigger] after.child(pointer, s),
                below,
                block_index,
            ) implies !#[trigger] after.in_tree(after.child(pointer, other), below, block_index) by {
            self.lemma_two_slots(after, pointer, height, slot, s, other, block_index);
        }
        assert forall|block_index: int| #[trigger]
            after.in_tree(pointer, height, block_index) implies self.in_tree(
            pointer,
            height,
            block_index,
        ) || self.block_is_free(block_index) by {
            if block_index != pointer {
                let s = choose|s: int|
                    0 <= s < n && after.in_tree(
                        #[trigger] after.child(pointer, s),
                        below,
                        block_index,
                    );
                if s == slot {
                    if self.in_tree(self.child(pointer, slot), below, block_index) {
                        self.lemma_in_child_tree(pointer, height, slot, block_index);
                    }
                } else {
                    assert(after.child(pointer, s) == self.child(pointer, s));
                    assert(self.in_tree(self.child(pointer, s), below, block_index));
                    self.lemma_in_child_tree(pointer, height, s, block_index);
                }
            } else {
                assert(self.in_tree(pointer, height, pointer as int));
            }
        }
    }

    /// A block of the tree under one slot of a sound block of pointers is no
    /// block of the tree under another slot, and not the block of pointers.
    pub proof fn lemma_sibling_apart(
        self,
        pointer: u64,
        height: nat,
        slot: int,
        other: int,
        block_index: int,
    )
        requires
            pointer != 0,
            height > 0,
            self.tree_ok(pointer, height),
            0 <= slot < self.indices_per_block(),
            0 <= other < self.indices_per_block(),
            other != slot,
            self.in_tree(self.child(pointer, other), (height - 1) as nat, block_index),
        ensures
            !self.in_tree(self.child(pointer, slot), (height - 1) as nat, block_index),
            block_index != pointer,
    {
        let below = (height - 1) as nat;
        assert(!self.in_tree(self.child(pointer, other), below, pointer as int));
        if self.in_tree(self.child(pointer, slot), below, block_index) {
            if slot < other {
                assert(!self.in_tree(self.child(pointer, other), below, block_index));
            } else {
                assert(!self.in_tree(self.child(pointer, slot), below, block_index));
            }
        }
    }

    /// After a write through slot `slot`, no block is in the trees under two
    /// slots.
    proof fn lemma_two_slots(
        self,
        after: Volume,
        pointer: u64,
        height: nat,
        slot: int,
        first: int,
        second: int,
        block_index: int,
    )
        requires
            self.consistent(),
            height > 0,
            pointer != 0,
            0 <= slot < self.indices_per_block(),
            0 <= first < second < self.indices_per_block(),
            self.tree_ok(pointer, height),
            forall|x: int| #[trigger]
                after.in_tree(after.child(pointer, slot), (height - 1) as nat, x) ==> self.in_tree(
                    self.child(pointer, slot),
                    (height - 1) as nat,
                    x,
                ) || self.block_is_free(x),
            forall|other: int|
                0 <= other < self.indices_per_block() && other != slot ==> after.child(
                    pointer,
                    other,
                ) == #[trigger] self.child(pointer, other) && (forall|x: int| #[trigger]
                    after.in_tree(self.child(pointer, other), (height - 1) as nat, x)
                        == self.in_tree(self.child(pointer, other), (height - 1) as nat, x)),
            after.in_tree(after.child(pointer, first), (height - 1) as nat, block_index),
        ensures
            !after.in_tree(after.child(pointer, second), (height - 1) as nat, block_index),
    {
        let below = (height - 1) as nat;
        if !after.in_tree(after.child(pointer, second), below, block_index) {
        } else if first != slot && second != slot {
            assert(after.child(pointer, first) == self.child(pointer, first));
            assert(after.child(pointer, second) == self.child(pointer, second));
            assert(self.in_tree(self.child(pointer, first), below, block_index));
            assert(self.in_tree(self.child(pointer, second), below, block_index));
        } else {
            let other = if first == slot {
                second
            } else {
                first
            };
            assert(after.child(pointer, other) == self.child(pointer, other));
            assert(self.in_tree(self.child(pointer, other), below, block_index));
            assert(self.tree_ok(self.child(pointer, other), below));
            self.lemma_tree_blocks_in_use(self.child(pointer, other), below, block_index);
            self.lemma_sibling_apart(pointer, height, slot, other, block_index);
        }
    }

    /// What is read at the end of a path of more than one slot is what is
    /// read, from the block of pointers that the first slot names, at the end
    /// of the rest of the path; and zeros where the first slot names nothing.
    pub proof fn lemma_read_step(self, table: Seq<u64>, path: Seq<u64>)
        requires
            path.len() > 1,
            table[path[0] as int] < self.block_count(),
        ensures
            table[path[0] as int] != 0 ==> self.read_at(table, path) == self.read_at(
                self.block_indices(table[path[0] as int] as int),
                path.drop_first(),
            ),
            table[path[0] as int] == 0 ==> self.read_at(table, path) == zero_bytes(
                self.block_size() as nat,
            ),
    {
    }

    /// What is read through a block of pointers that holds no pointer is
    /// zeros.
    pub proof fn lemma_read_nothing(self, table: Seq<u64>, path: Seq<u64>)
        requires
            path.len() >= 1,
            table[path[0] as int] == 0,
        ensures
            self.read_at(table, path) == zero_bytes(self.block_size() as nat),
    {
    }

    /// Writing a block of data through blocks of pointers: see
    /// `write_effect`.
    pub proof fn lemma_write_at(
        self,
        table: Seq<u64>,
        holder: Option<u64>,
        path: Seq<u64>,
        data: Seq<u8>,
    )
        requires
            self.write_ready(table, holder, path, data),
            self.write_at(table, holder, path, data).2 is Ok,
        ensures
            self.write_effect(
                table,
                holder,
                path,
                data,
                self.write_at(table, holder, path, data).0,
                self.write_at(table, holder, path, data).1,
            ),
        decreases path.len(),
    {
        if path.len() == 1 {
            self.lemma_write_at_leaf(table, holder, path, data);
        } else {
            let slot = path[0] as int;
            let height = (path.len() - 1) as nat;
            let below = (height - 1) as nat;
            let n = self.indices_per_block();
            let linked = self.link(table, holder, slot);
            self.lemma_link(table, holder, slot, height);
            let mid = linked.0;
            let table1 = linked.1;
            let pointer = linked.2->Ok_0;
            self.lemma_same_places(mid);
            lemma_block_size_bounds(self.superblock);
            let rest = path.drop_first();
            let next = rest[0] as int;
            let child_table = mid.block_indices(pointer as int);
            assert(rest[0] == path[1]);
            assert(mid.path_below_fits(rest)) by {
                assert forall|i: int| 1 <= i < rest.len() implies (#[trigger] rest[i])
                    < mid.indices_per_block() by {
                    assert(rest[i] == path[i + 1]);
                }
            }
            assert(mid.child(pointer, next) == child_table[next]);
            assert(mid.tree_ok(mid.child(pointer, next), below));
            assert(!mid.in_tree(mid.child(pointer, next), below, pointer as int));
            assert(mid.write_ready(child_table, Some(pointer), rest, data));
            mid.lemma_write_at(child_table, Some(pointer), rest, data);
            let lower = mid.write_at(child_table, Some(pointer), rest, data);
            let deep = lower.0;
            let child_changed = lower.1;
            mid.lemma_same_places(deep);
            assert(deep.child(pointer, next) == child_changed[next]);
            assert(mid.block_indices(pointer as int).update(next, deep.child(pointer, next))
                =~= child_changed);
            mid.lemma_rebuilt_tree(deep, pointer, height, next);
            self.lemma_write_at_upper(table, holder, path, data, mid, deep);
        }
    }

    /// The volume between the steps of a write at the end of a path of more
    /// than one slot, after the write under the block of the first slot and
    /// before that block is given back where it holds zeros.
    pub open spec fn written_below(
        self,
        table: Seq<u64>,
        holder: Option<u64>,
        path: Seq<u64>,
        data: Seq<u8>,
    ) -> (Volume, Seq<u64>, Result<(), Error>) {
        let linked = self.link(table, holder, path[0] as int);
        linked.0.write_at(
            linked.0.block_indices(linked.2->Ok_0 as int),
            Some(linked.2->Ok_0),
            path.drop_first(),
            data,
        )
    }

    /// The first step of a write at the end of a path of more than one slot:
    /// once the first slot names a block, the write can go on under that
    /// block.
    pub proof fn lemma_write_at_linked(
        self,
        table: Seq<u64>,
        holder: Option<u64>,
        path: Seq<u64>,
        data: Seq<u8>,
    )
        requires
            self.write_ready(table, holder, path, data),
            path.len() > 1,
            self.link(table, holder, path[0] as int).2 is Ok,
        ensures
            ({
                let slot = path[0] as int;
                let linked = self.link(table, holder, slot);
                let pointer = linked.2->Ok_0;
                &&& pointer != 0
                &&& pointer < linked.0.block_count()
                &&& linked.1[slot] == pointer
                &&& indices_fit(linked.1)
                &&& table[slot] != 0 ==> linked.0 == self && pointer == table[slot]
                &&& linked.0.write_ready(
                    linked.0.block_indices(pointer as int),
                    Some(pointer),
                    path.drop_first(),
                    data,
                )
            }),
    {
        let slot = path[0] as int;
        let height = (path.len() - 1) as nat;
        let below = (height - 1) as nat;
        let linked = self.link(table, holder, slot);
        self.lemma_link(table, holder, slot, height);
        let mid = linked.0;
        let pointer = linked.2->Ok_0;
        self.lemma_same_places(mid);
        lemma_block_size_bounds(self.superblock);
        let rest = path.drop_first();
        let next = rest[0] as int;
        let child_table = mid.block_indices(pointer as int);
        assert(rest[0] == path[1]);
        assert(mid.path_below_fits(rest)) by {
            assert forall|i: int| 1 <= i < rest.len() implies (#[trigger] rest[i])
                < mid.indices_per_block() by {
                assert(rest[i] == path[i + 1]);
            }
        }
        assert(mid.child(pointer, next) == child_table[next]);
        assert(mid.tree_ok(mid.child(pointer, next), below));
        assert(!mid.in_tree(mid.child(pointer, next), below, pointer as int));
    }

    /// The steps of a write at the end of a path of more than one slot: the
    /// first slot is made to name a block, the write goes on under that block,
    /// and the block is given back where it holds zeros. Between the last two
    /// steps the volume is consistent, the tree under the block is sound, the
    /// table is kept in its holder, and the block holds the table that the
    /// write under it has left.
    pub proof fn lemma_write_at_steps(
        self,
        table: Seq<u64>,
        holder: Option<u64>,
        path: Seq<u64>,
        data: Seq<u8>,
    )
        requires
            self.write_ready(table, holder, path, data),
            path.len() > 1,
            self.link(table, holder, path[0] as int).2 is Ok,
            self.written_below(table, holder, path, data).2 is Ok,
        ensures
            ({
                let slot = path[0] as int;
                let height = (path.len() - 1) as nat;
                let linked = self.link(table, holder, slot);
                let pointer = linked.2->Ok_0;
                let lower = self.written_below(table, holder, path, data);
                &&& lower.0.consistent()
                &&& self.same_places(lower.0)
                &&& lower.0.tree_ok(pointer, height)
                &&& lower.0.holder_ok(linked.1, holder, slot, height)
                &&& lower.0.block_indices(pointer as int) == lower.1
                &&& self.write_at(table, holder, path, data) == lower.0.reclaim(
                    linked.1,
                    holder,
                    slot,
                )
            }),
    {
        let slot = path[0] as int;
        let height = (path.len() - 1) as nat;
        let below = (height - 1) as nat;
        let linked = self.link(table, holder, slot);
        self.lemma_link(table, holder, slot, height);
        self.lemma_write_at_linked(table, holder, path, data);
        let mid = linked.0;
        let table1 = linked.1;
        let pointer = linked.2->Ok_0;
        self.lemma_same_places(mid);
        lemma_block_size_bounds(self.superblock);
        let rest = path.drop_first();
        let next = rest[0] as int;
        let child_table = mid.block_indices(pointer as int);
        mid.lemma_write_at(child_table, Some(pointer), rest, data);
        let lower = mid.write_at(child_table, Some(pointer), rest, data);
        let deep = lower.0;
        let child_changed = lower.1;
        mid.lemma_same_places(deep);
        assert(deep.child(pointer, next) == child_changed[next]);
        assert(mid.block_indices(pointer as int).update(next, deep.child(pointer, next))
            =~= child_changed);
        mid.lemma_rebuilt_tree(deep, pointer, height, next);
        assert(deep.holder_ok(table1, holder, slot, height)) by {
            match holder {
                Some(holder_index) => {
                    assert(mid.block_in_use(holder_index as int));
                    assert(holder_index != pointer) by {
                        assert(mid.in_tree(pointer, height, pointer as int));
                    }
                    if mid.in_tree(child_table[next], below, holder_index as int) {
                        assert(mid.child(pointer, next) == child_table[next]);
                        mid.lemma_in_child_tree(pointer, height, next, holder_index as int);
                    }
                    assert(deep.block(holder_index as int) == mid.block(holder_index as int));
                    assert(deep.block_indices(holder_index as int) =~= mid.block_indices(
                        holder_index as int,
                    ));
                },
                None => {},
            }
        }
    }

    /// The last step of `lemma_write_at`: what the write has done to the
    /// tree under the first slot of the path, once it has done what it does to
    /// the tree under the second.
    proof fn lemma_write_at_upper(
        self,
        table: Seq<u64>,
        holder: Option<u64>,
        path: Seq<u64>,
        data: Seq<u8>,
        mid: Volume,
        deep: Volume,
    )
        requires
            self.write_ready(table, holder, path, data),
            path.len() > 1,
            self.write_at(table, holder, path, data).2 is Ok,
            mid == self.link(table, holder, path[0] as int).0,
            deep == mid.write_at(
                mid.block_indices(self.link(table, holder, path[0] as int).2->Ok_0 as int),
                Some(self.link(table, holder, path[0] as int).2->Ok_0),
                path.drop_first(),
                data,
            ).0,
            mid.write_effect(
                mid.block_indices(self.link(table, holder, path[0] as int).2->Ok_0 as int),
                Some(self.link(table, holder, path[0] as int).2->Ok_0),
                path.drop_first(),
                data,
                deep,
                mid.write_at(
                    mid.block_indices(self.link(table, holder, path[0] as int).2->Ok_0 as int),
                    Some(self.link(table, holder, path[0] as int).2->Ok_0),
                    path.drop_first(),
                    data,
                ).1,
            ),
            deep.tree_ok(
                self.link(table, holder, path[0] as int).2->Ok_0,
                (path.len() - 1) as nat,
            ),
            forall|block_index: int| #[trigger]
                deep.in_tree(
                    self.link(table, holder, path[0] as int).2->Ok_0,
                    (path.len() - 1) as nat,
                    block_index,
                ) ==> mid.in_tree(
                    self.link(table, holder, path[0] as int).2->Ok_0,
                    (path.len() - 1) as nat,
                    block_index,
                ) || mid.block_is_free(block_index),
        ensures
            self.write_effect(
                table,
                holder,
                path,
                data,
                self.write_at(table, holder, path, data).0,
                self.write_at(table, holder, path, data).1,
            ),
    {
        let slot = path[0] as int;
        let height = (path.len() - 1) as nat;
        let below = (height - 1) as nat;
        let linked = self.link(table, holder, slot);
        self.lemma_link(table, holder, slot, height);
        let table1 = linked.1;
        let pointer = linked.2->Ok_0;
        let rest = path.drop_first();
        let next = rest[0] as int;
        let child_table = mid.block_indices(pointer as int);
        let lower = mid.write_at(child_table, Some(pointer), rest, data);
        let child_changed = lower.1;
        self.lemma_same_places(mid);
        mid.lemma_same_places(deep);
        lemma_block_size_bounds(self.superblock);
        assert(rest[0] == path[1]);
        // the holder holds the table, and is no block of the tree
        assert(deep.holder_ok(table1, holder, slot, height)) by {
            match holder {
                Some(holder_index) => {
                    assert(mid.block_in_use(holder_index as int));
                    assert(holder_index != pointer) by {
                        assert(mid.in_tree(pointer, height, pointer as int));
                    }
                    if mid.in_tree(child_table[next], below, holder_index as int) {
                        assert(mid.child(pointer, next) == child_table[next]);
                        mid.lemma_in_child_tree(pointer, height, next, holder_index as int);
                    }
                    assert(deep.block(holder_index as int) == mid.block(holder_index as int));
                    assert(deep.block_indices(holder_index as int) =~= mid.block_indices(
                        holder_index as int,
                    ));
                },
                None => {},
            }
        }
        deep.lemma_reclaim(table1, holder, slot, height);
        let written = self.write_at(table, holder, path, data);
        let after = written.0;
        let changed = written.1;
        assert(written == deep.reclaim(table1, holder, slot));
        deep.lemma_same_places(after);
        assert(self.inode_blocks_kept(after)) by {
            self.lemma_inode_blocks_kept_through(mid, deep);
            assert(self.same_places(deep));
            self.lemma_inode_blocks_kept_through(deep, after);
        }
        assert(changed =~= table.update(slot, changed[slot]));
        // what was in use outside the tree is as it was
        assert(self.outside_kept(after, table[slot], height, holder)) by {
            assert forall|kept: int|
                #[trigger] self.block_in_use(kept) && !self.in_tree(table[slot], height, kept)
                    && holder != Some(kept as u64) implies after.block(kept) == self.block(kept)
                && after.block_in_use(kept) by {
                self.lemma_kept_through(table, holder, path, data, mid, deep, kept);
            }
        }
        // the tree is made of blocks that were in it, or were free
        assert forall|block_index: int| #[trigger]
            after.in_tree(changed[slot], height, block_index) implies self.in_tree(
            table[slot],
            height,
            block_index,
        ) || self.block_is_free(block_index) by {
            if all_zero(deep.block(pointer as int)) {
                assert(changed[slot] == 0);
            } else {
                assert(after == deep);
                assert(deep.in_tree(pointer, height, block_index));
                if mid.in_tree(pointer, height, block_index) {
                    if table[slot] == 0 {
                        mid.lemma_empty_tree(pointer, height);
                    }
                }
            }
        }
        assert forall|block_index: int| #[trigger]
            after.block_is_free(block_index) implies self.block_is_free(block_index)
            || self.in_tree(table[slot], height, block_index) by {
            if block_index == pointer {
                assert(mid.in_tree(pointer, height, pointer as int));
            } else {
                assert(deep.block_is_free(block_index));
                if !mid.block_is_free(block_index) {
                    assert(mid.in_tree(mid.child(pointer, next), below, block_index));
                    mid.lemma_in_child_tree(pointer, height, next, block_index);
                    if table[slot] == 0 {
                        mid.lemma_empty_tree(pointer, height);
                    }
                }
            }
        }
        self.lemma_reads_upper(table, holder, path, data, mid, deep);
    }

    /// A block in use outside the tree under the first slot of the path is
    /// kept through the three steps of a write.
    proof fn lemma_kept_through(
        self,
        table: Seq<u64>,
        holder: Option<u64>,
        path: Seq<u64>,
        data: Seq<u8>,
        mid: Volume,
        deep: Volume,
        kept: int,
    )
        requires
            self.write_ready(table, holder, path, data),
            path.len() > 1,
            self.write_at(table, holder, path, data).2 is Ok,
            mid == self.link(table, holder, path[0] as int).0,
            mid.same_places(deep),
            mid.outside_kept(
                deep,
                mid.child(self.link(table, holder, path[0] as int).2->Ok_0, path[1] as int),
                (path.len() - 2) as nat,
                Some(self.link(table, holder, path[0] as int).2->Ok_0),
            ),
            deep.consistent(),
            deep.tree_ok(
                self.link(table, holder, path[0] as int).2->Ok_0,
                (path.len() - 1) as nat,
            ),
            deep.holder_ok(
                self.link(table, holder, path[0] as int).1,
                holder,
                path[0] as int,
                (path.len() - 1) as nat,
            ),
            forall|block_index: int| #[trigger]
                deep.in_tree(
                    self.link(table, holder, path[0] as int).2->Ok_0,
                    (path.len() - 1) as nat,
                    block_index,
                ) ==> mid.in_tree(
                    self.link(table, holder, path[0] as int).2->Ok_0,
                    (path.len() - 1) as nat,
                    block_index,
                ) || mid.block_is_free(block_index),
            self.block_in_use(kept),
            !self.in_tree(table[path[0] as int], (path.len() - 1) as nat, kept),
            holder != Some(kept as u64),
        ensures
            ({
                let after = deep.reclaim(
                    self.link(table, holder, path[0] as int).1,
                    holder,
                    path[0] as int,
                ).0;
                after.block(kept) == self.block(kept) && after.block_in_use(kept)
            }),
    {
        let slot = path[0] as int;
        let height = (path.len() - 1) as nat;
        let below = (height - 1) as nat;
        let linked = self.link(table, holder, slot);
        self.lemma_link(table, holder, slot, height);
        let table1 = linked.1;
        let pointer = linked.2->Ok_0;
        let next = path[1] as int;
        self.lemma_same_places(mid);
        mid.lemma_same_places(deep);
        assert(mid.block(kept) == self.block(kept) && mid.block_in_use(kept));
        // the block is no block of the tree, before and after the link
        assert(!mid.in_tree(pointer, height, kept)) by {
            if table[slot] == 0 {
                mid.lemma_empty_tree(pointer, height);
                assert(self.block_is_free(pointer as int));
            }
        }
        assert(kept != pointer) by {
            assert(mid.in_tree(pointer, height, pointer as int));
        }
        if mid.in_tree(mid.child(pointer, next), below, kept) {
            mid.lemma_in_child_tree(pointer, height, next, kept);
        }
        assert(deep.block(kept) == mid.block(kept) && deep.block_in_use(kept));
        assert(!deep.in_tree(pointer, height, kept));
        if table1[slot] != 0 && deep.reclaim(table1, holder, slot).2 is Ok {
            deep.lemma_reclaim(table1, holder, slot, height);
        }
    }

    /// What is read at the end of a path depends on the table in the first
    /// slot of the path alone.
    pub proof fn lemma_read_same_slot(self, table: Seq<u64>, other: Seq<u64>, path: Seq<u64>)
        requires
            path.len() >= 1,
            table[path[0] as int] == other[path[0] as int],
        ensures
            self.read_at(table, path) == self.read_at(other, path),
    {
    }

    /// What is read through the tree under the first slot of the path, once
    /// the write has done what it does to the tree under the second slot, and
    /// before a block that holds zeros is given back: at the end of every other
    /// path what was read there at first.
    proof fn lemma_read_other(
        self,
        table: Seq<u64>,
        holder: Option<u64>,
        path: Seq<u64>,
        data: Seq<u8>,
        mid: Volume,
        deep: Volume,
        other: Seq<u64>,
    )
        requires
            self.write_ready(table, holder, path, data),
            path.len() > 1,
            self.link(table, holder, path[0] as int).2 is Ok,
            mid == self.link(table, holder, path[0] as int).0,
            mid.write_effect(
                mid.block_indices(self.link(table, holder, path[0] as int).2->Ok_0 as int),
                Some(self.link(table, holder, path[0] as int).2->Ok_0),
                path.drop_first(),
                data,
                deep,
                deep.block_indices(self.link(table, holder, path[0] as int).2->Ok_0 as int),
            ),
            self.is_other_path(path, other),
        ensures
            deep.read_at(
                deep.block_indices(self.link(table, holder, path[0] as int).2->Ok_0 as int),
                other.drop_first(),
            ) == self.read_at(table, other),
    {
        let slot = path[0] as int;
        let height = (path.len() - 1) as nat;
        let below = (height - 1) as nat;
        let linked = self.link(table, holder, slot);
        self.lemma_link(table, holder, slot, height);
        let pointer = linked.2->Ok_0;
        let rest = path.drop_first();
        let other_rest = other.drop_first();
        let next = rest[0] as int;
        let child_table = mid.block_indices(pointer as int);
        let child_changed = deep.block_indices(pointer as int);
        self.lemma_same_places(mid);
        mid.lemma_same_places(deep);
        lemma_block_size_bounds(self.superblock);
        assert(rest[0] == path[1]);
        assert(other_rest[0] == other[1]);
        assert(mid.path_below_fits(other_rest)) by {
            assert forall|i: int| 1 <= i < other_rest.len() implies (#[trigger] other_rest[i])
                < mid.indices_per_block() by {
                assert(other_rest[i] == other[i + 1]);
            }
        }
        assert(other_rest != rest) by {
            if other_rest == rest {
                assert forall|i: int| 0 <= i < path.len() implies other[i] == path[i] by {
                    if i > 0 {
                        assert(other_rest[i - 1] == other[i]);
                        assert(rest[i - 1] == path[i]);
                    }
                }
                assert(other =~= path);
            }
        }
        // what was read at first, seen from the block that the slot names
        assert(mid.read_at(child_table, other_rest) == self.read_at(table, other)) by {
            if table[slot] == 0 {
                self.lemma_read_nothing(table, other);
                mid.lemma_zero_block_indices(pointer);
                assert(mid.child(pointer, other_rest[0] as int) == 0);
                mid.lemma_read_nothing(child_table, other_rest);
            } else {
                self.lemma_read_step(table, other);
            }
        }
        if other_rest[0] == rest[0] {
            assert(mid.is_other_path(rest, other_rest));
        } else {
            let third = other_rest[0] as int;
            assert(mid.child(pointer, third) == child_table[third]);
            assert(mid.tree_ok(mid.child(pointer, third), below));
            assert(mid.in_tree(pointer, height, pointer as int));
            assert forall|block_index: int|
                mid.in_tree(child_table[third], below, block_index) implies #[trigger] deep.block(
                block_index,
            ) == mid.block(block_index) by {
                mid.lemma_tree_blocks_in_use(child_table[third], below, block_index);
                mid.lemma_sibling_apart(pointer, height, next, third, block_index);
                assert(mid.child(pointer, next) == child_table[next]);
                assert(mid.block_in_use(block_index));
            }
            mid.lemma_read_frame(deep, child_table, other_rest);
            assert(child_changed[third] == child_table[third]);
            deep.lemma_read_same_slot(child_changed, child_table, other_rest);
        }
    }

    /// What is read after a write through blocks of pointers: the data at the
    /// end of the path, and at the end of every other path through the tree
    /// what was read there before.
    proof fn lemma_reads_upper(
        self,
        table: Seq<u64>,
        holder: Option<u64>,
        path: Seq<u64>,
        data: Seq<u8>,
        mid: Volume,
        deep: Volume,
    )
        requires
            self.write_ready(table, holder, path, data),
            path.len() > 1,
            self.write_at(table, holder, path, data).2 is Ok,
            self.write_at(table, holder, path, data).0.block_size() == self.block_size(),
            mid == self.link(table, holder, path[0] as int).0,
            deep == mid.write_at(
                mid.block_indices(self.link(table, holder, path[0] as int).2->Ok_0 as int),
                Some(self.link(table, holder, path[0] as int).2->Ok_0),
                path.drop_first(),
                data,
            ).0,
            mid.write_effect(
                mid.block_indices(self.link(table, holder, path[0] as int).2->Ok_0 as int),
                Some(self.link(table, holder, path[0] as int).2->Ok_0),
                path.drop_first(),
                data,
                deep,
                mid.write_at(
                    mid.block_indices(self.link(table, holder, path[0] as int).2->Ok_0 as int),
                    Some(self.link(table, holder, path[0] as int).2->Ok_0),
                    path.drop_first(),
                    data,
                ).1,
            ),
        ensures
            ({
                let written = self.write_at(table, holder, path, data);
                &&& written.0.read_at(written.1, path) == data
                &&& forall|other: Seq<u64>|
                    self.is_other_path(path, other) ==> #[trigger] written.0.read_at(
                        written.1,
                        other,
                    ) == self.read_at(table, other)
            }),
    {
        let slot = path[0] as int;
        let height = (path.len() - 1) as nat;
        let linked = self.link(table, holder, slot);
        self.lemma_link(table, holder, slot, height);
        let table1 = linked.1;
        let pointer = linked.2->Ok_0;
        let rest = path.drop_first();
        let child_table = mid.block_indices(pointer as int);
        let lower = mid.write_at(child_table, Some(pointer), rest, data);
        let child_changed = lower.1;
        let written = self.write_at(table, holder, path, data);
        let after = written.0;
        let changed = written.1;
        self.lemma_same_places(mid);
        mid.lemma_same_places(deep);
        lemma_block_size_bounds(self.superblock);
        assert(written == deep.reclaim(table1, holder, slot));
        assert(deep.block_indices(pointer as int) == child_changed);
        assert(rest[0] == path[1]);
        let zeros = zero_bytes(self.block_size() as nat);
        if all_zero(deep.block(pointer as int)) {
            assert(changed[slot] == 0);
            deep.lemma_zero_block_indices(pointer);
            assert(deep.child(pointer, rest[0] as int) == 0);
            deep.lemma_read_nothing(child_changed, rest);
            after.lemma_read_nothing(changed, path);
            assert(deep.read_at(child_changed, rest) == data);
            assert forall|other: Seq<u64>|
                self.is_other_path(path, other) implies #[trigger] after.read_at(changed, other)
                == self.read_at(table, other) by {
                self.lemma_read_other(table, holder, path, data, mid, deep, other);
                let other_rest = other.drop_first();
                assert(other_rest[0] == other[1]);
                assert(other[1] < self.indices_per_block());
                assert(deep.child(pointer, other_rest[0] as int) == 0);
                deep.lemma_read_nothing(child_changed, other_rest);
                after.lemma_read_nothing(changed, other);
            }
        } else {
            assert(after == deep && changed == table1);
            deep.lemma_read_step(table1, path);
            assert forall|other: Seq<u64>|
                self.is_other_path(path, other) implies #[trigger] after.read_at(changed, other)
                == self.read_at(table, other) by {
                self.lemma_read_other(table, holder, path, data, mid, deep, other);
                deep.lemma_read_step(table1, other);
            }
        }
    }
}

} // verus!
