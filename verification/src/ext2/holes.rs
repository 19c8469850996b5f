//! Writing zeros: a block of zeros that is written leaves a hole in the
//! file, and the block that held the data is given back.

use crate::bytes::{all_zero, zero_bytes};
use crate::ext2::data::indices_fit;
use crate::ext2::file_laws::{lemma_block_path_shape, root_height};
use crate::ext2::inode::Inode;
use crate::ext2::tree::{block_path, max_file_blocks};
use crate::ext2::volume::{lemma_block_size_bounds, Volume};
use crate::fs::Error;
use vstd::prelude::*;

verus! {

impl Volume {
    /// A block that is free stays free where the block of a slot is given
    /// back.
    pub proof fn lemma_reclaim_keeps_free(
        self,
        table: Seq<u64>,
        holder: Option<u64>,
        slot: int,
        height: nat,
        block_index: int,
    )
        requires
            self.consistent(),
            0 <= slot < table.len(),
            indices_fit(table),
            table[slot] != 0,
            self.tree_ok(table[slot], height),
            self.holder_ok(table, holder, slot, height),
            self.reclaim(table, holder, slot).2 is Ok,
            self.block_is_free(block_index),
        ensures
            self.reclaim(table, holder, slot).0.block_is_free(block_index),
    {
        let pointer = table[slot];
        if all_zero(self.block(pointer as int)) {
            assert(self.in_tree(pointer, height, pointer as int));
            self.lemma_data_block_index(pointer as int);
            self.lemma_free_block_effect(pointer as int);
            let freed = self.free_block(pointer as int).0;
            self.lemma_same_places(freed);
            assert(freed.block_marked(block_index) == self.block_marked(block_index));
            match holder {
                Some(holder_index) => {
                    let table2 = table.update(slot, 0);
                    assert(indices_fit(table2));
                    assert(freed.block_in_use(holder_index as int)) by {
                        assert(holder_index != pointer);
                        assert(freed.block_marked(holder_index as int) == self.block_marked(
                            holder_index as int,
                        ));
                    }
                    lemma_block_size_bounds(self.superblock);
                    freed.lemma_indices_read_back(holder_index as int, table2);
                    freed.lemma_data_write_effect(
                        holder_index as int,
                        crate::ext2::tree::indices_bytes(table2),
                    );
                    let stored = freed.with_block(
                        holder_index as int,
                        crate::ext2::tree::indices_bytes(table2),
                    );
                    freed.lemma_same_places(stored);
                    assert(stored.block_marked(block_index) == freed.block_marked(block_index));
                },
                None => {},
            }
        }
    }

    /// Writing a block of zeros at the end of a path leaves a hole there;
    /// the block that the path led to, if there was one, is free afterwards.
    pub proof fn lemma_zeros_written_at(self, table: Seq<u64>, holder: Option<u64>, path: Seq<u64>)
        requires
            self.write_ready(table, holder, path, zero_bytes(self.block_size() as nat)),
            self.write_at(table, holder, path, zero_bytes(self.block_size() as nat)).2 is Ok,
        ensures
            ({
                let written = self.write_at(
                    table,
                    holder,
                    path,
                    zero_bytes(self.block_size() as nat),
                );
                &&& written.0.resolve(written.1, path) == Ok::<u64, Error>(0)
                &&& forall|held: u64|
                    self.resolve(table, path) == Ok::<u64, Error>(held) && held != 0
                        ==> written.0.block_is_free(held as int)
            }),
        decreases path.len(),
    {
        let zeros = zero_bytes(self.block_size() as nat);
        let slot = path[0] as int;
        let height = (path.len() - 1) as nat;
        let linked = self.link(table, holder, slot);
        let table1 = linked.1;
        let pointer = linked.2->Ok_0;
        let written = self.write_at(table, holder, path, zeros);
        lemma_block_size_bounds(self.superblock);
        if path.len() == 1 {
            self.lemma_link(table, holder, slot, height);
            let mid = linked.0;
            self.lemma_same_places(mid);
            assert(mid.in_tree(pointer, 0, pointer as int));
            mid.lemma_data_write_effect(pointer as int, zeros);
            let stored = mid.with_block(pointer as int, zeros);
            mid.lemma_same_places(stored);
            assert(stored.tree_ok(pointer, 0));
            assert(stored.holder_ok(table1, holder, slot, 0)) by {
                match holder {
                    Some(holder_index) => {
                        assert(holder_index != pointer);
                        assert(stored.block(holder_index as int) == mid.block(holder_index as int));
                        assert(stored.block_indices(holder_index as int) =~= mid.block_indices(
                            holder_index as int,
                        ));
                    },
                    None => {},
                }
            }
            stored.lemma_reclaim(table1, holder, slot, 0);
            assert(written == stored.reclaim(table1, holder, slot));
            assert(all_zero(stored.block(pointer as int)));
            assert(written.1[slot] == 0);
        } else {
            self.lemma_write_at_linked(table, holder, path, zeros);
            self.lemma_write_at_steps(table, holder, path, zeros);
            let mid = linked.0;
            let rest = path.drop_first();
            let child_table = mid.block_indices(pointer as int);
            let lower = self.written_below(table, holder, path, zeros);
            let deep = lower.0;
            assert(mid.block_size() == self.block_size()) by {
                self.lemma_link(table, holder, slot, height);
                self.lemma_same_places(mid);
            }
            mid.lemma_zeros_written_at(child_table, Some(pointer), rest);
            deep.lemma_reclaim(table1, holder, slot, height);
            assert(written == deep.reclaim(table1, holder, slot));
            assert(written.0.resolve(written.1, path) == Ok::<u64, Error>(0)) by {
                if !all_zero(deep.block(pointer as int)) {
                    assert(written.0 == deep && written.1 == table1);
                    assert(deep.block_indices(pointer as int) == lower.1);
                }
            }
            assert forall|held: u64|
                self.resolve(table, path) == Ok::<u64, Error>(held) && held
                    != 0 implies written.0.block_is_free(held as int) by {
                assert(table[slot] != 0);
                assert(mid == self && pointer == table[slot]);
                assert(deep.block_is_free(held as int));
                deep.lemma_reclaim_keeps_free(table1, holder, slot, height, held as int);
            }
        }
    }

    /// Writing a block of zeros into a file leaves a hole in the file: no
    /// block of the device holds that block of the file afterwards, and the
    /// block that held it, if there was one, is free.
    pub proof fn lemma_zero_block_written(self, inode: Inode, inode_block_index: int)
        requires
            self.consistent(),
            inode.fits(),
            self.file_ok(inode),
            0 <= inode_block_index < max_file_blocks(self.indices_per_block()),
            self.write_data_block(
                inode,
                inode_block_index,
                zero_bytes(self.block_size() as nat),
            ).2 is Ok,
        ensures
            ({
                let written = self.write_data_block(
                    inode,
                    inode_block_index,
                    zero_bytes(self.block_size() as nat),
                );
                &&& written.0.data_block_index(written.1, inode_block_index) == Ok::<u64, Error>(0)
                &&& forall|held: u64|
                    self.data_block_index(inode, inode_block_index) == Ok::<u64, Error>(held)
                        && held != 0 ==> written.0.block_is_free(held as int)
            }),
    {
        lemma_block_size_bounds(self.superblock);
        let zeros = zero_bytes(self.block_size() as nat);
        let n = self.indices_per_block();
        let path = block_path(n, inode_block_index);
        let table = inode.data_block_map@;
        lemma_block_path_shape(n, inode_block_index);
        let slot = path[0] as int;
        assert(self.tree_ok(inode.data_block_map[slot], root_height(slot)));
        assert(indices_fit(table)) by {
            assert forall|i: int| 0 <= i < table.len() implies table[i] <= u32::MAX by {
                assert(inode.data_block_map[i] <= u32::MAX);
            }
        }
        assert(self.write_ready(table, None, path, zeros));
        self.lemma_zeros_written_at(table, None, path);
        self.lemma_write_at(table, None, path, zeros);
        let low = self.write_at(table, None, path, zeros);
        let written = self.write_data_block(inode, inode_block_index, zeros);
        assert(written.1.data_block_map@ =~= low.1);
        self.lemma_same_places(low.0);
    }
}

} // verus!
