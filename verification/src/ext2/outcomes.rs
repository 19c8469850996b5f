//! Whatever a write comes to, the volume stays consistent: a write that
//! fails leaves undone what was left to do, and the counts of what is free
//! are still those of the bitmaps.

use crate::ext2::data::indices_fit;
use crate::ext2::file_laws::{lemma_block_path_shape, root_height};
use crate::ext2::inode::Inode;
use crate::ext2::tree::{block_path, max_file_blocks};
use crate::ext2::volume::{lemma_block_size_bounds, Volume};
use crate::fs::{DirEntryView, Mode};
use vstd::prelude::*;

verus! {

impl Volume {
    /// The second volume is consistent, with everything in the same places
    /// as in the first.
    pub open spec fn still_consistent(self, after: Volume) -> bool {
        after.consistent() && self.same_places(after)
    }

    /// Writing at the end of a path keeps a consistent volume consistent,
    /// whether the write succeeds or fails.
    pub proof fn lemma_write_at_consistent(
        self,
        table: Seq<u64>,
        holder: Option<u64>,
        path: Seq<u64>,
        data: Seq<u8>,
    )
        requires
            self.write_ready(table, holder, path, data),
        ensures
            self.still_consistent(self.write_at(table, holder, path, data).0),
        decreases path.len(),
    {
        let slot = path[0] as int;
        let height = (path.len() - 1) as nat;
        let linked = self.link(table, holder, slot);
        if self.write_at(table, holder, path, data).2 is Ok {
            self.lemma_write_at(table, holder, path, data);
        } else if linked.2 is Err {
            assert(linked.0 == self);
            assert(self.same_places(self));
        } else {
            self.lemma_link(table, holder, slot, height);
            let mid = linked.0;
            let pointer = linked.2->Ok_0;
            self.lemma_same_places(mid);
            lemma_block_size_bounds(self.superblock);
            if path.len() == 1 {
                assert(mid.in_tree(pointer, 0, pointer as int));
                mid.lemma_data_write_effect(pointer as int, data);
                let stored = mid.with_block(pointer as int, data);
                mid.lemma_same_places(stored);
                assert(self.write_at(table, holder, path, data).0 == stored);
            } else {
                self.lemma_write_at_linked(table, holder, path, data);
                let rest = path.drop_first();
                let child_table = mid.block_indices(pointer as int);
                mid.lemma_write_at_consistent(child_table, Some(pointer), rest, data);
                let lower = self.written_below(table, holder, path, data);
                mid.lemma_same_places(lower.0);
                if lower.2 is Ok {
                    self.lemma_write_at_steps(table, holder, path, data);
                    assert(self.write_at(table, holder, path, data).0 == lower.0);
                } else {
                    assert(self.write_at(table, holder, path, data).0 == lower.0);
                }
            }
        }
    }

    /// Writing a block of a file keeps a consistent volume consistent,
    /// whether the write succeeds or fails.
    pub proof fn lemma_write_data_block_consistent(
        self,
        inode: Inode,
        inode_block_index: int,
        data: Seq<u8>,
    )
        requires
            self.consistent(),
            inode.fits(),
            self.file_ok(inode),
            0 <= inode_block_index < max_file_blocks(self.indices_per_block()),
            data.len() == self.block_size(),
        ensures
            self.still_consistent(self.write_data_block(inode, inode_block_index, data).0),
    {
        lemma_block_size_bounds(self.superblock);
        let n = self.indices_per_block();
        let path = block_path(n, inode_block_index);
        let table = inode.data_block_map@;
        lemma_block_path_shape(n, inode_block_index);
        let slot = path[0] as int;
        assert(self.tree_ok(inode.data_block_map[slot], root_height(slot)));
        assert(indices_fit(table)) by {
            assert forall|i: int| 0 <= i < table.len() implies table[i] <= u32::MAX by {
                assert(inode.data_block_map[i] <= u32::MAX);
            }
        }
        assert(self.write_ready(table, None, path, data));
        self.lemma_write_at_consistent(table, None, path, data);
    }

    /// Writing into a file keeps a consistent volume consistent, whether
    /// the write succeeds or fails.
    pub proof fn lemma_write_range_consistent(self, inode: Inode, start: int, data: Seq<u8>)
        requires
            self.consistent(),
            inode.fits(),
            self.file_ok(inode),
            0 <= start,
            start + data.len() <= self.max_file_size(),
        ensures
            self.still_consistent(self.write_range(inode, start, data).0),
        decreases data.len(),
    {
        lemma_block_size_bounds(self.superblock);
        let bs = self.block_size();
        let count = self.len_in_block(start, data.len() as int);
        crate::ext2::data::lemma_byte_in_block(bs, start);
        if data.len() == 0 {
            assert(self.same_places(self));
        } else {
            let first = data.subrange(0, count);
            let rest = data.subrange(count, data.len() as int);
            let step = self.write_in_block(inode, start, first);
            self.lemma_write_in_block_consistent(inode, start, first);
            self.lemma_same_places(step.0);
            if step.2 is Ok {
                self.lemma_write_in_block(inode, start, first);
                assert(step.0.max_file_size() == self.max_file_size());
                step.0.lemma_write_range_consistent(step.1, start + count, rest);
                step.0.lemma_same_places(self.write_range(inode, start, data).0);
            }
        }
    }

    /// Writing inside one block of a file keeps a consistent volume
    /// consistent, whether the write succeeds or fails.
    pub proof fn lemma_write_in_block_consistent(self, inode: Inode, start: int, data: Seq<u8>)
        requires
            self.consistent(),
            inode.fits(),
            self.file_ok(inode),
            0 <= start < self.max_file_size(),
            start % self.block_size() + data.len() <= self.block_size(),
        ensures
            self.still_consistent(self.write_in_block(inode, start, data).0),
    {
        lemma_block_size_bounds(self.superblock);
        let bs = self.block_size();
        let block = start / bs;
        self.lemma_block_of_position(start);
        self.lemma_data_block_read(inode, block);
        if data.len() == bs {
            self.lemma_write_data_block_consistent(inode, block, data);
        } else {
            let held = self.data_block(inode, block)->Ok_0;
            self.lemma_write_data_block_consistent(
                inode,
                block,
                crate::bytes::splice(held, start % bs, data),
            );
        }
    }

    /// Resizing a file keeps a consistent volume consistent, whether it
    /// succeeds or fails.
    pub proof fn lemma_resize_consistent(self, inode: Inode, new_size: int)
        requires
            self.consistent(),
            inode.fits(),
            self.file_ok(inode),
            self.can_resize_to(new_size),
        ensures
            self.still_consistent(self.resize(inode, new_size).0),
    {
        let low = if inode.size <= new_size {
            inode.size as int
        } else {
            new_size
        };
        let high = if inode.size <= new_size {
            new_size
        } else {
            inode.size as int
        };
        self.lemma_size_in_reach(high);
        self.lemma_write_range_consistent(
            inode,
            low,
            crate::bytes::zero_bytes((high - low) as nat),
        );
    }

    /// Writing into the file of an inode whose blocks form a sound tree
    /// keeps a consistent volume consistent, whether the write succeeds or
    /// fails.
    pub proof fn lemma_write_file_consistent(self, inode_index: int, start: int, data: Seq<u8>)
        requires
            self.consistent(),
            self.inode_in_range(inode_index),
            self.file_ok(self.inode(inode_index)),
            0 <= start,
            start + data.len() <= self.max_file_size(),
        ensures
            self.still_consistent(self.write_file(inode_index, start, data).0),
    {
        let inode = self.inode(inode_index);
        self.lemma_inode_fits(inode_index);
        self.lemma_write_range_consistent(inode, start, data);
        let written = self.write_range(inode, start, data);
        if written.2 is Ok {
            self.lemma_write_range(inode, start, data);
            self.lemma_same_places(written.0);
            written.0.lemma_inode_store_effect(inode_index, written.1);
            written.0.lemma_same_places(written.0.with_inode(inode_index, written.1));
        }
    }

    /// Resizing the file of an inode whose blocks form a sound tree keeps a
    /// consistent volume consistent, whether it succeeds or fails.
    pub proof fn lemma_resize_file_consistent(self, inode_index: int, size: int)
        requires
            self.consistent(),
            self.inode_in_range(inode_index),
            self.file_ok(self.inode(inode_index)),
            self.can_resize_to(size),
        ensures
            self.still_consistent(self.resize_file(inode_index, size).0),
    {
        let inode = self.inode(inode_index);
        self.lemma_inode_fits(inode_index);
        self.lemma_resize_consistent(inode, size);
        let resized = self.resize(inode, size);
        if resized.2 is Ok {
            self.lemma_resize(inode, size);
            self.lemma_same_places(resized.0);
            resized.0.lemma_inode_store_effect(inode_index, resized.1);
            resized.0.lemma_same_places(resized.0.with_inode(inode_index, resized.1));
        }
    }

    /// Storing the entries of a directory whose blocks form a sound tree
    /// keeps a consistent volume consistent, whether it succeeds or fails.
    pub proof fn lemma_write_dir_consistent(self, inode_index: int, dir_entries: Seq<DirEntryView>)
        requires
            self.consistent(),
            self.inode_in_range(inode_index),
            self.file_ok(self.inode(inode_index)),
            self.can_store(dir_entries),
        ensures
            self.still_consistent(self.write_dir(inode_index, dir_entries).0),
    {
        let data = DirEntryView::encode_stream(dir_entries);
        let inode = self.inode(inode_index);
        DirEntryView::lemma_stream_round_trip(dir_entries);
        self.lemma_inode_fits(inode_index);
        self.lemma_size_in_reach(data.len() as int);
        let resized = self.sized(inode, data.len() as int);
        if inode.size != data.len() {
            self.lemma_resize_consistent(inode, data.len() as int);
        } else {
            assert(self.same_places(self));
        }
        if resized.2 is Ok {
            if inode.size != data.len() {
                self.lemma_resize_changed(inode, data.len() as int);
            }
            self.lemma_same_places(resized.0);
            assert(resized.0.max_file_size() == self.max_file_size());
            resized.0.lemma_write_range_consistent(resized.1, 0, data);
            let written = resized.0.write_range(resized.1, 0, data);
            resized.0.lemma_same_places(written.0);
            if written.2 is Ok {
                resized.0.lemma_write_range(resized.1, 0, data);
                written.0.lemma_inode_store_effect(inode_index, written.1);
                written.0.lemma_same_places(written.0.with_inode(inode_index, written.1));
            }
        }
    }

    /// Taking a block, and giving one back that holds no metadata, keep a
    /// consistent volume consistent, whether they succeed or fail.
    pub proof fn lemma_block_calls_consistent(self, block_index: int)
        requires
            self.consistent(),
        ensures
            self.still_consistent(self.allocate_block().0),
            !self.is_metadata_block(block_index) ==> self.still_consistent(
                self.free_block(block_index).0,
            ),
    {
        assert(self.same_places(self));
        if self.allocate_block().1 is Ok {
            self.lemma_allocate_block_effect();
        }
        if self.free_block(block_index).1 is Ok && !self.is_metadata_block(block_index) {
            self.lemma_free_block_effect(block_index);
        }
    }

    /// Creating an inode, removing one and setting a link count keep a
    /// consistent volume consistent, whether they succeed or fail.
    pub proof fn lemma_inode_calls_consistent(self, inode_index: int, mode: Mode, links_count: u16)
        requires
            self.consistent(),
            self.inode_in_range(inode_index),
            mode.bits <= u16::MAX,
        ensures
            self.still_consistent(self.create(mode).0),
            self.still_consistent(self.free_inode(inode_index).0),
            self.still_consistent(self.set_links_count(inode_index, links_count)),
    {
        assert(self.same_places(self));
        if self.create(mode).1 is Ok {
            self.lemma_allocate_inode_effect();
            let taken = self.allocate_inode().0;
            let taken_index = self.allocate_inode().1->Ok_0 as int;
            self.lemma_same_places(taken);
            taken.lemma_inode_store_effect(taken_index, Inode::spec_empty(mode));
            taken.lemma_same_places(taken.with_inode(taken_index, Inode::spec_empty(mode)));
        }
        if self.free_inode(inode_index).1 is Ok {
            self.lemma_free_inode_effect(inode_index);
        }
        self.lemma_inode_fits(inode_index);
        self.lemma_inode_store_effect(
            inode_index,
            Inode { links_count, ..self.inode(inode_index) },
        );
    }
}

} // verus!
