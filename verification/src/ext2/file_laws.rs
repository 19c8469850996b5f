//! What holds of the data of a file on a volume that keeps its metadata
//! apart, where the blocks of the file form a sound tree: what is written is
//! what is read, and the tree stays sound.

use crate::bytes::{splice, zero_bytes};
use crate::ext2::data::indices_fit;
use crate::ext2::inode::Inode;
use crate::ext2::tree::{block_path, max_file_blocks, path_fits};
use crate::ext2::volume::{lemma_block_size_bounds, Volume};
use crate::fs::{DirEntryView, Error};
use vstd::prelude::*;

verus! {

/// Number of blocks of pointers between a slot of an inode's block map and
/// the data: none for the twelve direct slots, then one, two and three.
pub open spec fn root_height(slot: int) -> nat {
    if slot < 12 {
        0
    } else {
        (slot - 11) as nat
    }
}

/// The index of the block of a file that the slots of `path` lead to, when a
/// block holds `n` indices.
pub open spec fn path_index(n: int, path: Seq<u64>) -> int {
    if path.len() == 1 {
        path[0] as int
    } else if path.len() == 2 {
        12 + path[1]
    } else if path.len() == 3 {
        12 + n + path[1] * n + path[2]
    } else {
        12 + n + n * n + path[1] * (n * n) + path[2] * n + path[3]
    }
}

/// The path to a block of a file starts in the block map, goes through as
/// many blocks of pointers as its first slot asks for, and leads to that block
/// alone.
pub proof fn lemma_block_path_shape(n: int, l: int)
    requires
        256 <= n <= 0x20_0000,
        0 <= l < max_file_blocks(n),
    ensures
        path_fits(block_path(n, l), 15, n),
        block_path(n, l).len() == root_height(block_path(n, l)[0] as int) + 1,
        path_index(n, block_path(n, l)) == l,
{
    crate::ext2::tree::lemma_block_path_fits(n, l);
    if l < 12 {
    } else if l - 12 < n {
    } else if l - 12 - n < n * n {
        let r = l - 12 - n;
        vstd::arithmetic::div_mod::lemma_fundamental_div_mod(r, n);
        vstd::arithmetic::div_mod::lemma_mod_bound(r, n);
        assert((r / n) * n == n * (r / n)) by (nonlinear_arith);
        assert(0 <= r / n < n) by (nonlinear_arith)
            requires
                r == n * (r / n) + r % n,
                0 <= r % n < n,
                0 <= r < n * n,
                n > 0,
        ;
    } else {
        let r = l - 12 - n - n * n;
        let nn = n * n;
        assert(nn > 0) by (nonlinear_arith)
            requires
                nn == n * n,
                n >= 256,
        ;
        let q = r / n;
        vstd::arithmetic::div_mod::lemma_fundamental_div_mod(r, n);
        vstd::arithmetic::div_mod::lemma_fundamental_div_mod(q, n);
        vstd::arithmetic::div_mod::lemma_div_denominator(r, n, n);
        assert(q / n == r / nn);
        assert(r == (r / nn) * nn + (q % n) * n + r % n) by (nonlinear_arith)
            requires
                r == n * q + r % n,
                q == n * (r / nn) + q % n,
                nn == n * n,
        ;
        vstd::arithmetic::div_mod::lemma_mod_bound(r, n);
        vstd::arithmetic::div_mod::lemma_mod_bound(q, n);
        vstd::arithmetic::div_mod::lemma_fundamental_div_mod(r, nn);
        vstd::arithmetic::div_mod::lemma_mod_bound(r, nn);
        assert(0 <= r / nn < n) by (nonlinear_arith)
            requires
                r == nn * (r / nn) + r % nn,
                0 <= r % nn < nn,
                0 <= r < n * n * n,
                nn == n * n,
                n > 0,
        ;
    }
}

impl Volume {
    /// The blocks of the file of `inode` form a sound tree: the tree under
    /// each slot of the block map is sound, and no block is in the trees under
    /// two slots.
    pub open spec fn file_ok(self, inode: Inode) -> bool {
        &&& forall|slot: int|
            0 <= slot < 15 ==> #[trigger] self.tree_ok(
                inode.data_block_map[slot],
                root_height(slot),
            )
        &&& forall|slot: int, other: int, block_index: int|
            0 <= slot < other < 15 && #[trigger] self.in_tree(
                inode.data_block_map[slot],
                root_height(slot),
                block_index,
            ) ==> !#[trigger] self.in_tree(
                inode.data_block_map[other],
                root_height(other),
                block_index,
            )
    }

    /// Block `block_index` is a block of the file of `inode`.
    pub open spec fn in_file(self, inode: Inode, block_index: int) -> bool {
        exists|slot: int|
            0 <= slot < 15 && #[trigger] self.in_tree(
                inode.data_block_map[slot],
                root_height(slot),
                block_index,
            )
    }

    /// A block of a file is the byte `position % block_size` of the block
    /// `position / block_size` of the file.
    pub open spec fn file_byte(self, inode: Inode, position: int) -> u8 {
        self.data_block(inode, position / self.block_size())->Ok_0[position % self.block_size()]
    }

    /// Every block of a file whose blocks form a sound tree can be read, and
    /// is what is read at the end of its path.
    pub proof fn lemma_data_block_read(self, inode: Inode, inode_block_index: int)
        requires
            self.wf(),
            self.file_ok(inode),
            0 <= inode_block_index < max_file_blocks(self.indices_per_block()),
        ensures
            self.data_block(inode, inode_block_index) == Ok::<Seq<u8>, Error>(
                self.read_at(
                    inode.data_block_map@,
                    block_path(self.indices_per_block(), inode_block_index),
                ),
            ),
            self.data_block(inode, inode_block_index)->Ok_0.len() == self.block_size(),
    {
        lemma_block_size_bounds(self.superblock);
        let n = self.indices_per_block();
        let path = block_path(n, inode_block_index);
        lemma_block_path_shape(n, inode_block_index);
        let slot = path[0] as int;
        assert(self.tree_ok(inode.data_block_map[slot], root_height(slot)));
        self.lemma_resolve_in_tree(inode.data_block_map@, path);
        let pointer = self.resolve(inode.data_block_map@, path)->Ok_0;
        if pointer != 0 {
            self.lemma_tree_blocks_in_use(
                inode.data_block_map[slot],
                root_height(slot),
                pointer as int,
            );
            self.lemma_block_in_disk(pointer as int);
        }
    }

    /// No block that was in use outside the file has changed, or is no
    /// longer in use.
    pub open spec fn outside_file_kept(self, after: Volume, inode: Inode) -> bool {
        forall|kept: int|
            #[trigger] self.block_in_use(kept) && !self.in_file(inode, kept) ==> after.block(kept)
                == self.block(kept) && after.block_in_use(kept)
    }

    /// The file of `changed` in the volume `after` is made of blocks that
    /// were in the file of `inode`, or were free.
    pub open spec fn file_grown_from(self, after: Volume, inode: Inode, changed: Inode) -> bool {
        forall|block_index: int| #[trigger]
            after.in_file(changed, block_index) ==> self.in_file(inode, block_index)
                || self.block_is_free(block_index)
    }

    /// A block that is free in the volume `after` was free, or was a block of
    /// the file of `inode`.
    pub open spec fn free_from(self, after: Volume, inode: Inode) -> bool {
        forall|block_index: int| #[trigger]
            after.block_is_free(block_index) ==> self.block_is_free(block_index) || self.in_file(
                inode,
                block_index,
            )
    }

    /// The trees under the slots of the block map other than `slot` are, in
    /// the volume `after`, what they were: as sound, and made of the same
    /// blocks.
    pub open spec fn other_slots_kept(
        self,
        after: Volume,
        inode: Inode,
        changed: Inode,
        slot: int,
    ) -> bool {
        &&& forall|other: int|
            0 <= other < 15 && other != slot ==> #[trigger] after.tree_ok(
                inode.data_block_map[other],
                root_height(other),
            ) && changed.data_block_map[other] == inode.data_block_map[other]
        &&& forall|other: int, x: int|
            0 <= other < 15 && other != slot ==> #[trigger] after.in_tree(
                inode.data_block_map[other],
                root_height(other),
                x,
            ) == self.in_tree(inode.data_block_map[other], root_height(other), x)
    }

    /// What writing a block of a file does on a consistent volume, where the
    /// blocks of the file form a sound tree: the volume stays consistent and
    /// the tree sound; the block reads as what was written, and every other
    /// block of the file as it did; no block in use outside the file has
    /// changed; the file is made of blocks that were in it or were free; the
    /// blocks that hold inodes are what they were.
    pub proof fn lemma_write_data_block(self, inode: Inode, inode_block_index: int, data: Seq<u8>)
        requires
            self.consistent(),
            inode.fits(),
            self.file_ok(inode),
            0 <= inode_block_index < max_file_blocks(self.indices_per_block()),
            data.len() == self.block_size(),
            self.write_data_block(inode, inode_block_index, data).2 is Ok,
        ensures
            ({
                let written = self.write_data_block(inode, inode_block_index, data);
                &&& written.0.consistent()
                &&& self.same_places(written.0)
                &&& written.1.fits()
                &&& written.1 == (Inode { data_block_map: written.1.data_block_map, ..inode })
                &&& written.0.file_ok(written.1)
                &&& written.0.data_block(written.1, inode_block_index) == Ok::<Seq<u8>, Error>(
                    data,
                )
                &&& forall|other: int|
                    0 <= other < max_file_blocks(self.indices_per_block()) && other
                        != inode_block_index ==> #[trigger] written.0.data_block(written.1, other)
                        == self.data_block(inode, other)
                &&& self.outside_file_kept(written.0, inode)
                &&& self.file_grown_from(written.0, inode, written.1)
                &&& self.free_from(written.0, inode)
                &&& self.inode_blocks_kept(written.0)
            }),
    {
        lemma_block_size_bounds(self.superblock);
        let n = self.indices_per_block();
        let path = block_path(n, inode_block_index);
        let table = inode.data_block_map@;
        lemma_block_path_shape(n, inode_block_index);
        let slot = path[0] as int;
        let height = root_height(slot);
        assert(self.tree_ok(inode.data_block_map[slot], height));
        assert(indices_fit(table)) by {
            assert forall|i: int| 0 <= i < table.len() implies table[i] <= u32::MAX by {
                assert(inode.data_block_map[i] <= u32::MAX);
            }
        }
        assert(self.write_ready(table, None, path, data));
        self.lemma_write_at(table, None, path, data);
        let low = self.write_at(table, None, path, data);
        let after = low.0;
        let changed = low.1;
        let written = self.write_data_block(inode, inode_block_index, data);
        let inode2 = written.1;
        assert(inode2.data_block_map@ =~= changed);
        assert(changed.len() == 15);
        self.lemma_same_places(after);
        assert(inode2.fits()) by {
            assert forall|i: int| 0 <= i < 15 implies inode2.data_block_map[i] <= u32::MAX by {
                assert(changed[i] <= u32::MAX);
            }
        }
        // the trees under the other slots are as they were
        assert(self.other_slots_kept(after, inode, inode2, slot)) by {
            assert forall|other: int|
                0 <= other < 15 && other != slot implies #[trigger] after.tree_ok(
                inode.data_block_map[other],
                root_height(other),
            ) && inode2.data_block_map[other] == inode.data_block_map[other] by {
                self.lemma_other_slot_kept(inode, after, slot, other);
                assert(changed[other] == table[other]);
            }
            assert forall|other: int, x: int|
                0 <= other < 15 && other != slot implies #[trigger] after.in_tree(
                inode.data_block_map[other],
                root_height(other),
                x,
            ) == self.in_tree(inode.data_block_map[other], root_height(other), x) by {
                self.lemma_other_slot_kept(inode, after, slot, other);
            }
        }
        assert(after.file_ok(inode2)) by {
            assert forall|s: int| 0 <= s < 15 implies #[trigger] after.tree_ok(
                inode2.data_block_map[s],
                root_height(s),
            ) by {
                if s != slot {
                    assert(after.tree_ok(inode.data_block_map[s], root_height(s)));
                }
            }
            assert forall|s: int, other: int, block_index: int|
                0 <= s < other < 15 && #[trigger] after.in_tree(
                    inode2.data_block_map[s],
                    root_height(s),
                    block_index,
                ) implies !#[trigger] after.in_tree(
                inode2.data_block_map[other],
                root_height(other),
                block_index,
            ) by {
                self.lemma_two_root_slots(inode, after, inode2, slot, s, other, block_index);
            }
        }
        assert(self.outside_file_kept(after, inode)) by {
            assert forall|kept: int|
                #[trigger] self.block_in_use(kept) && !self.in_file(
                    inode,
                    kept,
                ) implies after.block(kept) == self.block(kept) && after.block_in_use(kept) by {
                assert(!self.in_tree(inode.data_block_map[slot], height, kept));
            }
        }
        assert(self.file_grown_from(after, inode, inode2)) by {
            assert forall|block_index: int| #[trigger]
                after.in_file(inode2, block_index) implies self.in_file(inode, block_index)
                || self.block_is_free(block_index) by {
                let s = choose|s: int|
                    0 <= s < 15 && #[trigger] after.in_tree(
                        inode2.data_block_map[s],
                        root_height(s),
                        block_index,
                    );
                if s == slot {
                    if self.in_tree(table[slot], height, block_index) {
                        assert(self.in_tree(inode.data_block_map[slot], root_height(slot), block_index));
                    }
                } else {
                    assert(after.tree_ok(inode.data_block_map[s], root_height(s)));
                    assert(self.in_tree(inode.data_block_map[s], root_height(s), block_index));
                }
            }
        }
        assert(self.free_from(after, inode)) by {
            assert forall|block_index: int| #[trigger]
                after.block_is_free(block_index) implies self.block_is_free(block_index)
                || self.in_file(inode, block_index) by {
                if self.in_tree(table[slot], height, block_index) {
                    assert(self.in_tree(inode.data_block_map[slot], root_height(slot), block_index));
                }
            }
        }
        // what is read
        after.lemma_data_block_read(inode2, inode_block_index);
        assert forall|other: int|
            0 <= other < max_file_blocks(n) && other
                != inode_block_index implies #[trigger] after.data_block(inode2, other)
            == self.data_block(inode, other) by {
            self.lemma_other_block_kept(inode, inode_block_index, data, other);
        }
    }

    /// The tree under a slot of the block map other than the one that a write
    /// went through is as it was.
    proof fn lemma_other_slot_kept(self, inode: Inode, after: Volume, slot: int, other: int)
        requires
            self.wf(),
            self.same_places(after),
            self.file_ok(inode),
            0 <= slot < 15,
            0 <= other < 15,
            other != slot,
            self.outside_kept(after, inode.data_block_map[slot], root_height(slot), None),
        ensures
            after.tree_ok(inode.data_block_map[other], root_height(other)),
            forall|block_index: int| #[trigger]
                after.in_tree(inode.data_block_map[other], root_height(other), block_index)
                    == self.in_tree(inode.data_block_map[other], root_height(other), block_index),
            forall|block_index: int|
                self.in_tree(inode.data_block_map[other], root_height(other), block_index)
                    ==> #[trigger] after.block(block_index) == self.block(block_index),
    {
        let pointer = inode.data_block_map[other];
        let height = root_height(other);
        assert(self.tree_ok(pointer, height));
        assert forall|block_index: int|
            self.in_tree(pointer, height, block_index) implies #[trigger] after.block(block_index)
            == self.block(block_index) && after.block_marked(block_index) by {
            self.lemma_tree_blocks_in_use(pointer, height, block_index);
            self.lemma_root_slots_apart(inode, slot, other, block_index);
            assert(self.block_in_use(block_index));
        }
        self.lemma_tree_frame(after, pointer, height);
    }

    /// A block of the tree under one slot of the block map of a sound file is
    /// no block of the tree under another slot.
    pub proof fn lemma_root_slots_apart(self, inode: Inode, slot: int, other: int, block_index: int)
        requires
            self.file_ok(inode),
            0 <= slot < 15,
            0 <= other < 15,
            other != slot,
            self.in_tree(inode.data_block_map[other], root_height(other), block_index),
        ensures
            !self.in_tree(inode.data_block_map[slot], root_height(slot), block_index),
    {
        if self.in_tree(inode.data_block_map[slot], root_height(slot), block_index) {
            if slot < other {
                assert(!self.in_tree(inode.data_block_map[other], root_height(other), block_index));
            } else {
                assert(!self.in_tree(inode.data_block_map[slot], root_height(slot), block_index));
            }
        }
    }

    /// After a write through slot `slot` of the block map, no block is in the
    /// trees under two slots.
    proof fn lemma_two_root_slots(
        self,
        inode: Inode,
        after: Volume,
        changed: Inode,
        slot: int,
        first: int,
        second: int,
        block_index: int,
    )
        requires
            self.file_ok(inode),
            0 <= slot < 15,
            0 <= first < second < 15,
            forall|x: int| #[trigger]
                after.in_tree(changed.data_block_map[slot], root_height(slot), x) ==> self.in_tree(
                    inode.data_block_map[slot],
                    root_height(slot),
                    x,
                ) || self.block_is_free(x),
            self.other_slots_kept(after, inode, changed, slot),
            after.in_tree(changed.data_block_map[first], root_height(first), block_index),
        ensures
            !after.in_tree(changed.data_block_map[second], root_height(second), block_index),
    {
        if !after.in_tree(changed.data_block_map[second], root_height(second), block_index) {
        } else if first != slot && second != slot {
            assert(after.tree_ok(inode.data_block_map[first], root_height(first)));
            assert(after.tree_ok(inode.data_block_map[second], root_height(second)));
            assert(self.in_tree(inode.data_block_map[first], root_height(first), block_index));
            assert(self.in_tree(inode.data_block_map[second], root_height(second), block_index));
        } else {
            let other = if first == slot {
                second
            } else {
                first
            };
            assert(after.tree_ok(inode.data_block_map[other], root_height(other)));
            assert(self.in_tree(inode.data_block_map[other], root_height(other), block_index));
            assert(self.tree_ok(inode.data_block_map[other], root_height(other)));
            self.lemma_tree_blocks_in_use(
                inode.data_block_map[other],
                root_height(other),
                block_index,
            );
            self.lemma_root_slots_apart(inode, slot, other, block_index);
        }
    }

    /// A block of a file other than the one that is written reads as it did.
    proof fn lemma_other_block_kept(
        self,
        inode: Inode,
        inode_block_index: int,
        data: Seq<u8>,
        other: int,
    )
        requires
            self.consistent(),
            self.file_ok(inode),
            0 <= inode_block_index < max_file_blocks(self.indices_per_block()),
            0 <= other < max_file_blocks(self.indices_per_block()),
            other != inode_block_index,
            self.write_effect(
                inode.data_block_map@,
                None,
                block_path(self.indices_per_block(), inode_block_index),
                data,
                self.write_data_block(inode, inode_block_index, data).0,
                self.write_data_block(inode, inode_block_index, data).1.data_block_map@,
            ),
            self.write_data_block(inode, inode_block_index, data).0.file_ok(
                self.write_data_block(inode, inode_block_index, data).1,
            ),
        ensures
            self.write_data_block(inode, inode_block_index, data).0.data_block(
                self.write_data_block(inode, inode_block_index, data).1,
                other,
            ) == self.data_block(inode, other),
    {
        lemma_block_size_bounds(self.superblock);
        let n = self.indices_per_block();
        let path = block_path(n, inode_block_index);
        let other_path = block_path(n, other);
        let table = inode.data_block_map@;
        let written = self.write_data_block(inode, inode_block_index, data);
        let after = written.0;
        let inode2 = written.1;
        let changed = inode2.data_block_map@;
        lemma_block_path_shape(n, inode_block_index);
        lemma_block_path_shape(n, other);
        self.lemma_same_places(after);
        let slot = path[0] as int;
        let other_slot = other_path[0] as int;
        self.lemma_data_block_read(inode, other);
        after.lemma_data_block_read(inode2, other);
        assert(self.path_below_fits(other_path));
        if other_slot == slot {
            assert(other_path != path) by {
                if other_path == path {
                    assert(path_index(n, other_path) == path_index(n, path));
                }
            }
            assert(self.is_other_path(path, other_path));
        } else {
            self.lemma_other_slot_kept(inode, after, slot, other_slot);
            assert(self.tree_ok(inode.data_block_map[other_slot], root_height(other_slot)));
            self.lemma_read_frame(after, table, other_path);
            assert(changed[other_slot] == table[other_slot]);
            after.lemma_read_same_slot(changed, table, other_path);
        }
    }

    /// The bytes of the file after `data` has been written from byte `start`
    /// on: `data` where it was written, and what the file held elsewhere.
    pub open spec fn byte_after_write(
        self,
        inode: Inode,
        start: int,
        data: Seq<u8>,
        position: int,
    ) -> u8 {
        if start <= position < start + data.len() {
            data[position - start]
        } else {
            self.file_byte(inode, position)
        }
    }

    /// What a write into a file has done, when it has led from this volume
    /// and `inode` to the volume `after` and the inode `changed`: the volume is
    /// consistent and the blocks of the file form a sound tree; the file holds
    /// `data` from byte `start` on, and elsewhere what it held; no block in use
    /// outside the file has changed; the file is made of blocks that were in it
    /// or were free, and what is free was free or was in the file; the blocks
    /// that hold inodes are what they were.
    pub open spec fn file_written(
        self,
        inode: Inode,
        start: int,
        data: Seq<u8>,
        after: Volume,
        changed: Inode,
    ) -> bool {
        &&& after.consistent()
        &&& self.same_places(after)
        &&& changed.fits()
        &&& changed == (Inode { data_block_map: changed.data_block_map, ..inode })
        &&& after.file_ok(changed)
        &&& forall|position: int|
            0 <= position < self.max_file_size() ==> #[trigger] after.file_byte(changed, position)
                == self.byte_after_write(inode, start, data, position)
        &&& self.outside_file_kept(after, inode)
        &&& self.file_grown_from(after, inode, changed)
        &&& self.free_from(after, inode)
        &&& self.inode_blocks_kept(after)
    }

    /// A position in a file lies in one of the blocks that a file can have.
    pub proof fn lemma_block_of_position(self, position: int)
        requires
            self.superblock.log_block_size <= crate::ext2::volume::MAX_LOG_BLOCK_SIZE,
            0 <= position < self.max_file_size(),
        ensures
            0 <= position / self.block_size() < max_file_blocks(self.indices_per_block()),
            0 <= position % self.block_size() < self.block_size(),
    {
        lemma_block_size_bounds(self.superblock);
        let bs = self.block_size();
        let blocks = max_file_blocks(self.indices_per_block());
        crate::ext2::data::lemma_byte_in_block(bs, position);
        assert(position / bs < blocks) by (nonlinear_arith)
            requires
                (position / bs) * bs <= position,
                position < blocks * bs,
                bs > 0,
        ;
    }

    /// Writing inside one block of a file: see `file_written`.
    pub proof fn lemma_write_in_block(self, inode: Inode, start: int, data: Seq<u8>)
        requires
            self.consistent(),
            inode.fits(),
            self.file_ok(inode),
            0 <= start < self.max_file_size(),
            start % self.block_size() + data.len() <= self.block_size(),
            self.write_in_block(inode, start, data).2 is Ok,
        ensures
            self.file_written(
                inode,
                start,
                data,
                self.write_in_block(inode, start, data).0,
                self.write_in_block(inode, start, data).1,
            ),
    {
        lemma_block_size_bounds(self.superblock);
        let bs = self.block_size();
        let block = start / bs;
        let offset = start % bs;
        self.lemma_block_of_position(start);
        self.lemma_data_block_read(inode, block);
        let held = self.data_block(inode, block)->Ok_0;
        let block_data = if data.len() == bs {
            data
        } else {
            splice(held, offset, data)
        };
        self.lemma_write_data_block(inode, block, block_data);
        let written = self.write_in_block(inode, start, data);
        let after = written.0;
        let changed = written.1;
        self.lemma_same_places(after);
        crate::ext2::data::lemma_byte_in_block(bs, start);
        assert forall|position: int|
            0 <= position < self.max_file_size() implies #[trigger] after.file_byte(
            changed,
            position,
        ) == self.byte_after_write(inode, start, data, position) by {
            self.lemma_block_of_position(position);
            crate::ext2::data::lemma_byte_in_block(bs, position);
            if position / bs == block {
                assert(after.data_block(changed, block) == Ok::<Seq<u8>, Error>(block_data));
                assert(position % bs == position - block * bs);
                assert(offset == start - block * bs);
            } else {
                assert(after.data_block(changed, position / bs) == self.data_block(
                    inode,
                    position / bs,
                ));
                if start <= position < start + data.len() {
                    crate::ext2::data::lemma_block_of_byte(bs, block, position);
                }
            }
        }
    }

    /// Two writes into a file, one after the other, do what one write of the
    /// two pieces of data does.
    proof fn lemma_file_written_twice(
        self,
        inode: Inode,
        start: int,
        data: Seq<u8>,
        count: int,
        middle: Volume,
        between: Inode,
        after: Volume,
        changed: Inode,
    )
        requires
            self.consistent(),
            self.file_ok(inode),
            0 < count <= data.len(),
            0 <= start,
            self.file_written(inode, start, data.subrange(0, count), middle, between),
            middle.file_written(
                between,
                start + count,
                data.subrange(count, data.len() as int),
                after,
                changed,
            ),
        ensures
            self.file_written(inode, start, data, after, changed),
    {
        self.lemma_same_places(middle);
        middle.lemma_same_places(after);
        self.lemma_same_places(after);
        self.lemma_inode_blocks_kept_through(middle, after);
        assert(self.max_file_size() == middle.max_file_size());
        assert forall|position: int|
            0 <= position < self.max_file_size() implies #[trigger] after.file_byte(
            changed,
            position,
        ) == self.byte_after_write(inode, start, data, position) by {
            assert(after.file_byte(changed, position) == middle.byte_after_write(
                between,
                start + count,
                data.subrange(count, data.len() as int),
                position,
            ));
            assert(middle.file_byte(between, position) == self.byte_after_write(
                inode,
                start,
                data.subrange(0, count),
                position,
            ));
        }
        assert(self.outside_file_kept(after, inode)) by {
            assert forall|kept: int|
                #[trigger] self.block_in_use(kept) && !self.in_file(
                    inode,
                    kept,
                ) implies after.block(kept) == self.block(kept) && after.block_in_use(kept) by {
                assert(middle.block(kept) == self.block(kept) && middle.block_in_use(kept));
                if middle.in_file(between, kept) {
                    assert(self.in_file(inode, kept) || self.block_is_free(kept));
                }
                assert(middle.block_in_use(kept) && !middle.in_file(between, kept));
            }
        }
        assert(self.free_from(after, inode)) by {
            assert forall|block_index: int| #[trigger]
                after.block_is_free(block_index) implies self.block_is_free(block_index)
                || self.in_file(inode, block_index) by {
                if !middle.block_is_free(block_index) {
                    assert(middle.in_file(between, block_index));
                    assert(self.in_file(inode, block_index) || self.block_is_free(block_index));
                } else {
                    assert(self.block_is_free(block_index) || self.in_file(inode, block_index));
                }
            }
        }
        assert(self.file_grown_from(after, inode, changed)) by {
            assert forall|block_index: int| #[trigger]
                after.in_file(changed, block_index) implies self.in_file(inode, block_index)
                || self.block_is_free(block_index) by {
                if middle.in_file(between, block_index) {
                    assert(self.in_file(inode, block_index) || self.block_is_free(block_index));
                } else {
                    assert(middle.block_is_free(block_index));
                    assert(self.block_is_free(block_index) || self.in_file(inode, block_index));
                }
            }
        }
    }

    /// Writing into a file on a consistent volume, where the blocks of the
    /// file form a sound tree: see `file_written`.
    pub proof fn lemma_write_range(self, inode: Inode, start: int, data: Seq<u8>)
        requires
            self.consistent(),
            inode.fits(),
            self.file_ok(inode),
            0 <= start,
            start + data.len() <= self.max_file_size(),
            self.write_range(inode, start, data).2 is Ok,
        ensures
            self.file_written(
                inode,
                start,
                data,
                self.write_range(inode, start, data).0,
                self.write_range(inode, start, data).1,
            ),
        decreases data.len(),
    {
        lemma_block_size_bounds(self.superblock);
        let bs = self.block_size();
        let count = self.len_in_block(start, data.len() as int);
        crate::ext2::data::lemma_byte_in_block(bs, start);
        if data.len() == 0 {
            self.lemma_same_places(self);
            self.lemma_inode_blocks_kept_at_rest();
            assert(self.outside_file_kept(self, inode));
            assert(self.file_grown_from(self, inode, inode));
            assert(self.free_from(self, inode));
        } else {
            let first = data.subrange(0, count);
            let rest = data.subrange(count, data.len() as int);
            self.lemma_write_in_block(inode, start, first);
            let step = self.write_in_block(inode, start, first);
            self.lemma_same_places(step.0);
            assert(step.0.max_file_size() == self.max_file_size());
            step.0.lemma_write_range(step.1, start + count, rest);
            let last = step.0.write_range(step.1, start + count, rest);
            self.lemma_file_written_twice(inode, start, data, count, step.0, step.1, last.0, last.1);
        }
    }

    /// What is written into a file is what is read from it: on a consistent
    /// volume, where the blocks of the file form a sound tree, a write that
    /// succeeds leaves the data in the range that it was written to, the
    /// volume as it was required, and every other byte of the file as it was.
    pub proof fn lemma_write_range_read_back(self, inode: Inode, start: int, data: Seq<u8>)
        requires
            self.consistent(),
            inode.fits(),
            self.file_ok(inode),
            0 <= start,
            start + data.len() <= self.max_file_size(),
            self.write_range(inode, start, data).2 is Ok,
        ensures
            ({
                let written = self.write_range(inode, start, data);
                &&& written.0.consistent()
                &&& written.0.file_ok(written.1)
                &&& written.0.file_bytes(written.1, start, start + data.len()) == Ok::<
                    Seq<u8>,
                    Error,
                >(data)
            }),
    {
        self.lemma_write_range(inode, start, data);
        let written = self.write_range(inode, start, data);
        let after = written.0;
        let changed = written.1;
        self.lemma_same_places(after);
        after.lemma_file_bytes(changed, start, start + data.len());
        let read = after.file_bytes(changed, start, start + data.len())->Ok_0;
        assert forall|i: int| 0 <= i < data.len() implies read[i] == data[i] by {
            assert(after.file_byte(changed, start + i) == self.byte_after_write(
                inode,
                start,
                data,
                start + i,
            ));
        }
        assert(read =~= data);
    }

    /// A range of a file whose blocks form a sound tree can be read, and
    /// holds the bytes of the file.
    pub proof fn lemma_file_bytes(self, inode: Inode, start: int, end: int)
        requires
            self.wf(),
            self.file_ok(inode),
            0 <= start <= end <= self.max_file_size(),
        ensures
            self.file_bytes(inode, start, end) is Ok,
            self.file_bytes(inode, start, end)->Ok_0.len() == end - start,
            forall|i: int|
                0 <= i < end - start ==> #[trigger] self.file_bytes(
                    inode,
                    start,
                    end,
                )->Ok_0[i] == self.file_byte(inode, start + i),
    {
        lemma_block_size_bounds(self.superblock);
        let bs = self.block_size();
        assert forall|inode_block_index: int|
            self.block_in_range(
                inode_block_index,
                start,
                end,
            ) implies (#[trigger] self.data_block(inode, inode_block_index)) is Ok by {
            crate::ext2::data::lemma_byte_in_block(bs, start);
            self.lemma_block_of_position(end - 1);
            self.lemma_data_block_read(inode, inode_block_index);
        }
    }

    /// The blocks of the file of `inode` are in the second volume what they
    /// are in the first, and marked as used.
    pub open spec fn file_blocks_kept(self, after: Volume, inode: Inode) -> bool {
        forall|block_index: int| #[trigger]
            self.in_file(inode, block_index) ==> after.block(block_index) == self.block(
                block_index,
            ) && after.block_marked(block_index)
    }

    /// A file is kept where its blocks are: in a second volume with
    /// everything in the same places, in which the blocks of the file hold
    /// what they held and are marked as used, the blocks of a file that form a
    /// sound tree form the same tree, and hold what they held.
    pub proof fn lemma_file_kept(self, after: Volume, inode: Inode)
        requires
            self.wf(),
            after.wf(),
            self.same_places(after),
            self.file_blocks_kept(after, inode),
            self.file_ok(inode),
        ensures
            after.file_ok(inode),
            forall|block_index: int|
                after.in_file(inode, block_index) == self.in_file(inode, block_index),
            forall|position: int|
                0 <= position < self.max_file_size() ==> #[trigger] after.file_byte(inode, position)
                    == self.file_byte(inode, position),
    {
        self.lemma_same_places(after);
        lemma_block_size_bounds(self.superblock);
        assert forall|slot: int| 0 <= slot < 15 implies #[trigger] after.tree_ok(
            inode.data_block_map[slot],
            root_height(slot),
        ) && (forall|block_index: int| #[trigger]
            after.in_tree(inode.data_block_map[slot], root_height(slot), block_index)
                == self.in_tree(inode.data_block_map[slot], root_height(slot), block_index))
            && (forall|block_index: int|
            self.in_tree(inode.data_block_map[slot], root_height(slot), block_index)
                ==> #[trigger] after.block(block_index) == self.block(block_index)) by {
            let pointer = inode.data_block_map[slot];
            let height = root_height(slot);
            assert(self.tree_ok(pointer, height));
            assert forall|block_index: int|
                self.in_tree(pointer, height, block_index) implies #[trigger] after.block(
                block_index,
            ) == self.block(block_index) && after.block_marked(block_index) by {
                assert(self.in_file(inode, block_index));
            }
            self.lemma_tree_frame(after, pointer, height);
        }
        assert forall|block_index: int|
            after.in_file(inode, block_index) == self.in_file(inode, block_index) by {
            if self.in_file(inode, block_index) {
                let slot = choose|slot: int|
                    0 <= slot < 15 && #[trigger] self.in_tree(
                        inode.data_block_map[slot],
                        root_height(slot),
                        block_index,
                    );
                assert(after.tree_ok(inode.data_block_map[slot], root_height(slot)));
                assert(after.in_tree(inode.data_block_map[slot], root_height(slot), block_index));
            }
            if after.in_file(inode, block_index) {
                let slot = choose|slot: int|
                    0 <= slot < 15 && #[trigger] after.in_tree(
                        inode.data_block_map[slot],
                        root_height(slot),
                        block_index,
                    );
                assert(after.tree_ok(inode.data_block_map[slot], root_height(slot)));
                assert(self.in_tree(inode.data_block_map[slot], root_height(slot), block_index));
            }
        }
        assert(after.file_ok(inode)) by {
            assert forall|slot: int, other: int, block_index: int|
                0 <= slot < other < 15 && #[trigger] after.in_tree(
                    inode.data_block_map[slot],
                    root_height(slot),
                    block_index,
                ) implies !#[trigger] after.in_tree(
                inode.data_block_map[other],
                root_height(other),
                block_index,
            ) by {
                assert(after.tree_ok(inode.data_block_map[slot], root_height(slot)));
                assert(after.tree_ok(inode.data_block_map[other], root_height(other)));
                assert(self.in_tree(inode.data_block_map[slot], root_height(slot), block_index));
                assert(!self.in_tree(inode.data_block_map[other], root_height(other), block_index));
            }
        }
        assert forall|position: int|
            0 <= position < self.max_file_size() implies #[trigger] after.file_byte(
            inode,
            position,
        ) == self.file_byte(inode, position) by {
            self.lemma_block_of_position(position);
            let block = position / self.block_size();
            let n = self.indices_per_block();
            let path = block_path(n, block);
            lemma_block_path_shape(n, block);
            let slot = path[0] as int;
            assert(after.tree_ok(inode.data_block_map[slot], root_height(slot)));
            assert(self.tree_ok(inode.data_block_map[slot], root_height(slot)));
            self.lemma_read_frame(after, inode.data_block_map@, path);
            self.lemma_data_block_read(inode, block);
            after.lemma_data_block_read(inode, block);
        }
    }

    /// The blocks of a file whose blocks form a sound tree are kept where the
    /// blocks in use are.
    pub proof fn lemma_file_blocks_kept(self, after: Volume, inode: Inode)
        requires
            self.file_ok(inode),
            self.in_use_kept(after, None),
        ensures
            self.file_blocks_kept(after, inode),
    {
        assert forall|block_index: int| #[trigger]
            self.in_file(inode, block_index) implies after.block(block_index) == self.block(
            block_index,
        ) && after.block_marked(block_index) by {
            self.lemma_file_blocks_marked(inode, block_index);
            assert(self.block_in_use(block_index));
        }
    }

    /// Storing an inode changes no file: the blocks of a file that form a
    /// sound tree form the same tree, and hold what they held.
    pub proof fn lemma_inode_store_keeps_file(self, inode_index: int, stored: Inode, inode: Inode)
        requires
            self.consistent(),
            self.inode_in_range(inode_index),
            self.file_ok(inode),
        ensures
            self.with_inode(inode_index, stored).file_ok(inode),
            forall|block_index: int|
                self.with_inode(inode_index, stored).in_file(inode, block_index) == self.in_file(
                    inode,
                    block_index,
                ),
            forall|position: int|
                0 <= position < self.max_file_size() ==> #[trigger] self.with_inode(
                    inode_index,
                    stored,
                ).file_byte(inode, position) == self.file_byte(inode, position),
    {
        let after = self.with_inode(inode_index, stored);
        self.lemma_inode_store_keeps_blocks(inode_index, stored);
        self.lemma_file_blocks_kept(after, inode);
        self.lemma_file_kept(after, inode);
    }

    /// Storing an inode keeps the volume consistent, with everything in the
    /// same places; it changes no block that was in use, and leaves it in use.
    pub proof fn lemma_inode_store_keeps_blocks(self, inode_index: int, stored: Inode)
        requires
            self.consistent(),
            self.inode_in_range(inode_index),
        ensures
            self.with_inode(inode_index, stored).consistent(),
            self.same_places(self.with_inode(inode_index, stored)),
            self.in_use_kept(self.with_inode(inode_index, stored), None),
    {
        let after = self.with_inode(inode_index, stored);
        self.lemma_with_inode_effect(inode_index, stored);
        self.lemma_same_places(after);
        let table_block = self.inode_start(inode_index) / self.block_size();
        let group = self.group_of_inode(inode_index);
        assert forall|kept: int| #[trigger] self.block_in_use(kept) implies after.block(kept)
            == self.block(kept) && after.block_in_use(kept) by {
            if kept == table_block {
                assert(self.is_table_block_of(group, kept));
            }
            assert(after.block_marked(kept) == self.block_marked(kept));
        }
    }

    /// What is written into a file is what is read from it. On a consistent
    /// volume, where the blocks of the file form a sound tree, a write that
    /// succeeds leaves the data in the range that it was written to; the
    /// volume is still consistent, and the blocks of the file still form a
    /// sound tree.
    pub proof fn lemma_write_file_read_back(self, inode_index: int, start: int, data: Seq<u8>)
        requires
            self.consistent(),
            self.inode_in_range(inode_index),
            self.file_ok(self.inode(inode_index)),
            0 <= start,
            start + data.len() <= self.max_file_size(),
            self.write_file(inode_index, start, data).1 is Ok,
        ensures
            ({
                let after = self.write_file(inode_index, start, data).0;
                &&& after.consistent()
                &&& after.file_ok(after.inode(inode_index))
                &&& after.file_bytes(after.inode(inode_index), start, start + data.len()) == Ok::<
                    Seq<u8>,
                    Error,
                >(data)
            }),
    {
        let inode = self.inode(inode_index);
        self.lemma_inode_place(inode_index);
        Inode::lemma_decode_fits(
            self.disk.subrange(
                self.inode_start(inode_index),
                self.inode_start(inode_index) + crate::ext2::inode::INODE_PRACTICAL_SIZE,
            ),
        );
        self.lemma_write_range(inode, start, data);
        let written = self.write_range(inode, start, data);
        let middle = written.0;
        let changed = written.1;
        self.lemma_same_places(middle);
        middle.lemma_inode_store_keeps_file(inode_index, changed, changed);
        middle.lemma_with_inode_effect(inode_index, changed);
        middle.lemma_with_inode_read_back(inode_index, changed);
        let after = middle.with_inode(inode_index, changed);
        middle.lemma_same_places(after);
        assert(after.inode(inode_index) == changed);
        after.lemma_file_bytes(changed, start, start + data.len());
        let read = after.file_bytes(changed, start, start + data.len())->Ok_0;
        assert forall|i: int| 0 <= i < data.len() implies read[i] == data[i] by {
            assert(after.file_byte(changed, start + i) == middle.file_byte(changed, start + i));
            assert(middle.file_byte(changed, start + i) == self.byte_after_write(
                inode,
                start,
                data,
                start + i,
            ));
        }
        assert(read =~= data);
    }

    /// Every block of a file whose blocks form a sound tree is marked as
    /// used by the block bitmap of its group, lies on the device, and holds no
    /// metadata.
    pub proof fn lemma_file_blocks_marked(self, inode: Inode, block_index: int)
        requires
            self.file_ok(inode),
            self.in_file(inode, block_index),
        ensures
            self.block_marked(block_index),
            self.block_in_groups(block_index),
            !self.is_metadata_block(block_index),
    {
        let slot = choose|slot: int|
            0 <= slot < 15 && #[trigger] self.in_tree(
                inode.data_block_map[slot],
                root_height(slot),
                block_index,
            );
        assert(self.tree_ok(inode.data_block_map[slot], root_height(slot)));
        self.lemma_tree_blocks_in_use(inode.data_block_map[slot], root_height(slot), block_index);
    }

    /// A size that fits 32 bits is one that a file can reach.
    pub proof fn lemma_size_in_reach(self, size: int)
        requires
            self.superblock.log_block_size <= crate::ext2::volume::MAX_LOG_BLOCK_SIZE,
            size <= u32::MAX,
        ensures
            size <= self.max_file_size(),
    {
        lemma_block_size_bounds(self.superblock);
        let n = self.indices_per_block();
        let bs = self.block_size();
        assert(n >= 256);
        assert(size <= max_file_blocks(n) * bs) by (nonlinear_arith)
            requires
                size <= 0xffff_ffff,
                n >= 256,
                bs >= 1024,
                max_file_blocks(n) == 12 + n + n * n + n * n * n,
        ;
    }

    /// What resizing a file does on a consistent volume, where the blocks of
    /// the file form a sound tree: the volume stays consistent and the tree
    /// sound; the file has the new size; the bytes between the old size and
    /// the new one are zeros, and the others are what they were.
    pub proof fn lemma_resize(self, inode: Inode, new_size: int)
        requires
            self.consistent(),
            inode.fits(),
            self.file_ok(inode),
            self.can_resize_to(new_size),
            self.resize(inode, new_size).2 is Ok,
        ensures
            ({
                let resized = self.resize(inode, new_size);
                let low = if inode.size <= new_size {
                    inode.size as int
                } else {
                    new_size
                };
                let high = if inode.size <= new_size {
                    new_size
                } else {
                    inode.size as int
                };
                &&& resized.1.size == new_size
                &&& resized.1.fits()
                &&& self.file_written(
                    inode,
                    low,
                    zero_bytes((high - low) as nat),
                    resized.0,
                    Inode { size: inode.size, sector_count: inode.sector_count, ..resized.1 },
                )
                &&& resized.0.file_ok(resized.1)
            }),
    {
        let low = if inode.size <= new_size {
            inode.size as int
        } else {
            new_size
        };
        let high = if inode.size <= new_size {
            new_size
        } else {
            inode.size as int
        };
        self.lemma_size_in_reach(high);
        let zeros = zero_bytes((high - low) as nat);
        self.lemma_write_range(inode, low, zeros);
        let written = self.write_range(inode, low, zeros);
        let resized = self.resize(inode, new_size);
        assert(resized.1.data_block_map == written.1.data_block_map);
        assert((Inode { size: inode.size, sector_count: inode.sector_count, ..resized.1 })
            == written.1);
    }

    /// A directory that was written is the directory that is read. On a
    /// consistent volume, where the blocks of the directory form a sound tree,
    /// the entries that were stored are the entries that are read; the volume
    /// is still consistent, and the blocks of the directory still form a sound
    /// tree.
    pub proof fn lemma_write_dir_read_back(self, inode_index: int, dir_entries: Seq<DirEntryView>)
        requires
            self.consistent(),
            self.inode_in_range(inode_index),
            self.file_ok(self.inode(inode_index)),
            self.can_store(dir_entries),
            self.write_dir(inode_index, dir_entries).1 is Ok,
        ensures
            ({
                let after = self.write_dir(inode_index, dir_entries).0;
                &&& after.consistent()
                &&& after.file_ok(after.inode(inode_index))
                &&& after.read_dir(inode_index) == Ok::<Seq<DirEntryView>, Error>(dir_entries)
            }),
    {
        let data = DirEntryView::encode_stream(dir_entries);
        DirEntryView::lemma_stream_round_trip(dir_entries);
        let inode = self.inode(inode_index);
        self.lemma_inode_place(inode_index);
        Inode::lemma_decode_fits(
            self.disk.subrange(
                self.inode_start(inode_index),
                self.inode_start(inode_index) + crate::ext2::inode::INODE_PRACTICAL_SIZE,
            ),
        );
        self.lemma_size_in_reach(data.len() as int);
        let resized = if inode.size == data.len() {
            (self, inode, Ok::<(), Error>(()))
        } else {
            self.resize(inode, data.len() as int)
        };
        if inode.size != data.len() {
            self.lemma_resize(inode, data.len() as int);
        }
        self.lemma_same_places(resized.0);
        assert(resized.0.consistent());
        assert(resized.0.file_ok(resized.1));
        assert(resized.1.size == data.len());
        assert(resized.0.max_file_size() == self.max_file_size());
        resized.0.lemma_write_range(resized.1, 0, data);
        let written = resized.0.write_range(resized.1, 0, data);
        let middle = written.0;
        let changed = written.1;
        resized.0.lemma_same_places(middle);
        middle.lemma_inode_store_keeps_file(inode_index, changed, changed);
        middle.lemma_with_inode_effect(inode_index, changed);
        middle.lemma_with_inode_read_back(inode_index, changed);
        let after = middle.with_inode(inode_index, changed);
        middle.lemma_same_places(after);
        assert(after == self.write_dir(inode_index, dir_entries).0);
        assert(after.inode(inode_index) == changed);
        assert(changed.size == data.len());
        after.lemma_file_bytes(changed, 0, data.len() as int);
        let read = after.file_bytes(changed, 0, data.len() as int)->Ok_0;
        assert forall|i: int| 0 <= i < data.len() implies read[i] == data[i] by {
            assert(after.file_byte(changed, 0 + i) == middle.file_byte(changed, i));
            assert(middle.file_byte(changed, i) == resized.0.byte_after_write(
                resized.1,
                0,
                data,
                i,
            ));
        }
        assert(read =~= data);
    }

    /// Resizing a file keeps the volume consistent and the blocks of the file
    /// a sound tree, and gives the file its new size.
    pub proof fn lemma_resize_file(self, inode_index: int, size: int)
        requires
            self.consistent(),
            self.inode_in_range(inode_index),
            self.file_ok(self.inode(inode_index)),
            self.can_resize_to(size),
            self.resize_file(inode_index, size).1 is Ok,
        ensures
            ({
                let after = self.resize_file(inode_index, size).0;
                &&& after.consistent()
                &&& after.file_ok(after.inode(inode_index))
                &&& after.inode(inode_index).size == size
            }),
    {
        let inode = self.inode(inode_index);
        self.lemma_inode_place(inode_index);
        Inode::lemma_decode_fits(
            self.disk.subrange(
                self.inode_start(inode_index),
                self.inode_start(inode_index) + crate::ext2::inode::INODE_PRACTICAL_SIZE,
            ),
        );
        self.lemma_resize(inode, size);
        let resized = self.resize(inode, size);
        self.lemma_same_places(resized.0);
        resized.0.lemma_inode_store_keeps_file(inode_index, resized.1, resized.1);
        resized.0.lemma_with_inode_effect(inode_index, resized.1);
        resized.0.lemma_with_inode_read_back(inode_index, resized.1);
    }
}

} // verus!
