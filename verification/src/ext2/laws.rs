//! What holds of the operations on a volume, beyond what each of them says
//! of itself.

use crate::bytes::{all_zero, zero_bytes};
use crate::ext2::bitmap::{
    bit, clear_bit_count, first_clear_bit, is_first_clear_bit, lemma_clear_bit_count_with_bit,
    lemma_with_bit, with_bit,
};
use crate::ext2::inode::Inode;
use crate::ext2::tree::block_path;
use crate::ext2::volume::{lemma_block_size_bounds, Volume};
use crate::fs::Error;
use vstd::prelude::*;

verus! {

impl Volume {
    /// A block that was written is the block that is read.
    pub proof fn lemma_with_block_read_back(self, block_index: int, data: Seq<u8>)
        requires
            self.wf(),
            0 <= block_index < self.block_count(),
            data.len() == self.block_size(),
        ensures
            self.with_block(block_index, data).block(block_index) == data,
            forall|other: int|
                0 <= other < self.block_count() && other != block_index ==> #[trigger] self.with_block(
                    block_index,
                    data,
                ).block(other) == self.block(other),
    {
        let bs = self.block_size();
        let after = self.with_block(block_index, data);
        self.lemma_block_in_disk(block_index);
        assert(after.block(block_index) =~= data);
        assert forall|other: int|
            0 <= other < self.block_count() && other != block_index implies #[trigger] after.block(
            other,
        ) == self.block(other) by {
            self.lemma_block_in_disk(other);
            if other < block_index {
                assert((other + 1) * bs <= block_index * bs) by (nonlinear_arith)
                    requires
                        other + 1 <= block_index,
                        bs > 0,
                ;
            } else {
                assert((block_index + 1) * bs <= other * bs) by (nonlinear_arith)
                    requires
                        block_index + 1 <= other,
                        bs > 0,
                ;
            }
            assert(after.block(other) =~= self.block(other));
        }
    }

    /// A block that is taken was marked as free and is marked as used: the
    /// bitmap of its group has one clear bit less among the blocks of the
    /// group, and the superblock and the descriptor of the group count one
    /// free block less.
    pub proof fn lemma_allocate_block_marks(self)
        requires
            self.wf(),
            self.allocate_block().1 is Ok,
        ensures
            ({
                let after = self.allocate_block().0;
                let block_index = self.allocate_block().1->Ok_0 as int;
                let group = self.first_group_with_free_blocks()->Some_0;
                let index = block_index - self.group_start(group);
                &&& 0 <= group < self.group_count()
                &&& self.group_start(group) <= block_index < self.group_end(group)
                &&& !bit(self.block_bitmap(group), index)
                &&& bit(after.block_bitmap(group), index)
                &&& forall|lower: int| 0 <= lower < index ==> bit(self.block_bitmap(group), lower)
                &&& clear_bit_count(after.block_bitmap(group), self.group_len(group))
                    == clear_bit_count(self.block_bitmap(group), self.group_len(group)) - 1
                &&& after.superblock.free_blocks_count == self.superblock.free_blocks_count - 1
                &&& after.descriptors[group].free_blocks_count
                    == self.descriptors[group].free_blocks_count - 1
            }),
    {
        let group = self.first_group_with_free_blocks()->Some_0;
        assert(self.is_first_group_with_free_blocks(group));
        let bitmap = self.block_bitmap(group);
        let index = first_clear_bit(bitmap, self.group_len(group))->Some_0;
        assert(is_first_clear_bit(bitmap, self.group_len(group), index));
        assert(self.descriptor_in_range(group));
        self.lemma_bitmap_change(group, -1, index, true);
    }

    /// A block that is given back was marked as used and is marked as free:
    /// the bitmap of its group has one clear bit more among the blocks of the
    /// group, and the superblock and the descriptor of the group count one
    /// free block more.
    pub proof fn lemma_free_block_marks(self, block_index: int)
        requires
            self.wf(),
            self.free_block(block_index).1 is Ok,
        ensures
            ({
                let after = self.free_block(block_index).0;
                let group = self.group_of_block(block_index);
                let index = block_index - self.group_start(group);
                &&& 0 <= group < self.group_count()
                &&& self.group_start(group) <= block_index < self.group_end(group)
                &&& bit(self.block_bitmap(group), index)
                &&& !bit(after.block_bitmap(group), index)
                &&& clear_bit_count(after.block_bitmap(group), self.group_len(group))
                    == clear_bit_count(self.block_bitmap(group), self.group_len(group)) + 1
                &&& after.superblock.free_blocks_count == self.superblock.free_blocks_count + 1
                &&& after.descriptors[group].free_blocks_count
                    == self.descriptors[group].free_blocks_count + 1
            }),
    {
        let group = self.group_of_block(block_index);
        self.lemma_group_of_block(block_index);
        self.lemma_bitmap_change(group, 1, block_index - self.group_start(group), false);
    }

    /// What counting a block and changing its bit does to the bitmap of the
    /// group and to the counts.
    proof fn lemma_bitmap_change(self, group: int, change: int, index: int, value: bool)
        requires
            self.wf(),
            0 <= group < self.group_count(),
            0 <= index < self.group_len(group),
            0 <= self.superblock.free_blocks_count + change <= u32::MAX,
            0 <= self.descriptors[group].free_blocks_count + change <= u16::MAX,
        ensures
            ({
                let bitmap = self.block_bitmap(group);
                let after = self.with_free_blocks_changed(group, change).with_copies().with_block(
                    self.descriptors[group].block_bitmap_block_index as int,
                    with_bit(bitmap, index, value),
                );
                &&& after.block_bitmap(group) == with_bit(bitmap, index, value)
                &&& bit(after.block_bitmap(group), index) == value
                &&& clear_bit_count(after.block_bitmap(group), self.group_len(group))
                    == clear_bit_count(bitmap, self.group_len(group)) + if bit(bitmap, index)
                    && !value {
                    1int
                } else if !bit(bitmap, index) && value {
                    -1int
                } else {
                    0int
                }
                &&& after.superblock.free_blocks_count == self.superblock.free_blocks_count
                    + change
                &&& after.descriptors[group].free_blocks_count
                    == self.descriptors[group].free_blocks_count + change
            }),
    {
        let bitmap = self.block_bitmap(group);
        let bitmap_block = self.descriptors[group].block_bitmap_block_index as int;
        let counted = self.with_free_blocks_changed(group, change);
        self.lemma_with_free_blocks_changed_wf(group, change);
        let copied = counted.with_copies();
        counted.lemma_with_copies_upto(counted.group_count());
        counted.lemma_same_layout(copied);
        assert(self.descriptor_in_range(group));
        lemma_block_size_bounds(self.superblock);
        self.lemma_block_in_disk(bitmap_block);
        self.lemma_group_range(group);
        let changed = with_bit(bitmap, index, value);
        lemma_with_bit(bitmap, index, value, index);
        copied.lemma_with_block_read_back(bitmap_block, changed);
        lemma_clear_bit_count_with_bit(bitmap, self.group_len(group), index, value);
    }

    /// Counting blocks, storing the copies and writing a block keep a volume
    /// sound and what no operation changes.
    proof fn lemma_counted_copied_written(self, group: int, change: int, block_index: int, data: Seq<u8>)
        requires
            self.wf(),
            0 <= group < self.group_count(),
            0 <= self.superblock.free_blocks_count + change <= u32::MAX,
            0 <= self.descriptors[group].free_blocks_count + change <= u16::MAX,
        ensures
            self.with_free_blocks_changed(group, change).with_copies().with_block(
                block_index,
                data,
            ).wf(),
            self.with_free_blocks_changed(group, change).with_copies().with_block(
                block_index,
                data,
            ).constants() == self.constants(),
    {
        let counted = self.with_free_blocks_changed(group, change);
        self.lemma_with_free_blocks_changed_wf(group, change);
        let copied = counted.with_copies();
        counted.lemma_with_copies_upto(counted.group_count());
        counted.lemma_same_layout(copied);
        copied.lemma_with_bytes_wf(block_index * copied.block_size(), data);
    }

    /// Taking a block keeps a volume sound and what no operation changes; the
    /// block that is taken is on the device.
    pub proof fn lemma_allocate_block_wf(self)
        requires
            self.wf(),
        ensures
            self.allocate_block().0.wf(),
            self.allocate_block().0.constants() == self.constants(),
            self.allocate_block().1 matches Ok(block_index) ==> block_index < self.block_count(),
    {
        if self.allocate_block().1 is Ok {
            let group = self.first_group_with_free_blocks()->Some_0;
            assert(self.is_first_group_with_free_blocks(group));
            let bitmap = self.block_bitmap(group);
            let index = first_clear_bit(bitmap, self.group_len(group))->Some_0;
            assert(is_first_clear_bit(bitmap, self.group_len(group), index));
            assert(self.descriptor_in_range(group));
            self.lemma_group_range(group);
            self.lemma_counted_copied_written(
                group,
                -1,
                self.descriptors[group].block_bitmap_block_index as int,
                with_bit(bitmap, index, true),
            );
        }
    }

    /// Giving a block back keeps a volume sound and what no operation changes.
    pub proof fn lemma_free_block_wf(self, block_index: int)
        requires
            self.wf(),
        ensures
            self.free_block(block_index).0.wf(),
            self.free_block(block_index).0.constants() == self.constants(),
    {
        if self.free_block(block_index).1 is Ok {
            let group = self.group_of_block(block_index);
            self.lemma_group_of_block(block_index);
            self.lemma_counted_copied_written(
                group,
                1,
                self.descriptors[group].block_bitmap_block_index as int,
                with_bit(self.block_bitmap(group), block_index - self.group_start(group), false),
            );
        }
    }

    /// Sparse read: where the slots that lead to the blocks of a range hold
    /// 0, as they do in a file that was never written there, the range reads
    /// as zeros.
    pub proof fn lemma_sparse_read(self, inode: Inode, start: int, end: int)
        requires
            0 <= start <= end,
            forall|inode_block_index: int|
                self.block_in_range(inode_block_index, start, end)
                    ==> #[trigger] self.data_block_index(inode, inode_block_index) == Ok::<
                    u64,
                    Error,
                >(0),
            self.block_size() > 0,
        ensures
            self.file_bytes(inode, start, end) == Ok::<Seq<u8>, Error>(
                zero_bytes((end - start) as nat),
            ),
    {
        let bs = self.block_size();
        assert forall|inode_block_index: int|
            self.block_in_range(inode_block_index, start, end) implies (#[trigger] self.data_block(
            inode,
            inode_block_index,
        )) == Ok::<Seq<u8>, Error>(zero_bytes(bs as nat)) by {
            assert(self.data_block_index(inode, inode_block_index) == Ok::<u64, Error>(0));
        }
        assert(self.file_bytes(inode, start, end) is Ok);
        let bytes = self.file_bytes(inode, start, end)->Ok_0;
        assert(bytes.len() == end - start);
        assert forall|i: int| 0 <= i < end - start implies #[trigger] bytes[i] == 0 by {
            crate::ext2::data::lemma_byte_in_block(bs, start + i);
            vstd::arithmetic::div_mod::lemma_div_is_ordered(start, start + i, bs);
            vstd::arithmetic::div_mod::lemma_div_is_ordered(start + i, end - 1, bs);
            assert(self.block_in_range((start + i) / bs, start, end));
            assert(self.data_block(inode, (start + i) / bs) == Ok::<Seq<u8>, Error>(
                zero_bytes(bs as nat),
            ));
        }
        assert(bytes =~= zero_bytes((end - start) as nat));
    }

    /// A file whose block map holds nothing reads as zeros everywhere.
    pub proof fn lemma_empty_map_reads_zeros(self, inode: Inode, start: int, end: int)
        requires
            0 <= start <= end,
            forall|slot: int| 0 <= slot < 15 ==> inode.data_block_map[slot] == 0,
            self.block_size() >= 4,
        ensures
            self.file_bytes(inode, start, end) == Ok::<Seq<u8>, Error>(
                zero_bytes((end - start) as nat),
            ),
    {
        let n = self.indices_per_block();
        assert forall|inode_block_index: int|
            self.block_in_range(inode_block_index, start, end)
                implies #[trigger] self.data_block_index(inode, inode_block_index) == Ok::<
            u64,
            Error,
        >(0) by {
            crate::ext2::data::lemma_byte_in_block(self.block_size(), start);
            let path = block_path(n, inode_block_index);
            assert(0 <= path[0] < 15);
        }
        self.lemma_sparse_read(inode, start, end);
    }

    /// What is written to a direct block of a file is what is read from it.
    /// The law is stated for a write that succeeds, and that does not leave
    /// block 0, which stands for a hole, as the block of the data.
    pub proof fn lemma_direct_block_read_back(self, inode: Inode, inode_block_index: int, data: Seq<u8>)
        requires
            self.wf(),
            0 <= inode_block_index < 12,
            data.len() == self.block_size(),
            self.write_data_block(inode, inode_block_index, data).2 is Ok,
            self.write_data_block(inode, inode_block_index, data).1.data_block_map[inode_block_index]
                != 0 || all_zero(data),
        ensures
            self.write_data_block(inode, inode_block_index, data).0.data_block(
                self.write_data_block(inode, inode_block_index, data).1,
                inode_block_index,
            ) == Ok::<Seq<u8>, Error>(data),
    {
        let n = self.indices_per_block();
        let path = block_path(n, inode_block_index);
        let table = inode.data_block_map@;
        let slot = inode_block_index;
        assert(path =~= seq![inode_block_index as u64]);
        assert(path[0] == inode_block_index);
        let linked = self.link(table, None, slot);
        // the volume stays sound while the slot gets its block
        let taken = self.allocate_block();
        self.lemma_allocate_block_wf();
        if table[slot] == 0 {
            taken.0.lemma_with_bytes_wf(
                (taken.1->Ok_0 as int) * taken.0.block_size(),
                zero_bytes(self.block_size() as nat),
            );
        }
        assert(linked.0.wf());
        assert(linked.0.constants() == self.constants());
        let pointer = linked.2->Ok_0;
        let stored = linked.0.with_block(pointer as int, data);
        linked.0.lemma_with_block_read_back(pointer as int, data);
        linked.0.lemma_with_bytes_wf(pointer * linked.0.block_size(), data);
        let written = self.write_at(table, None, path, data);
        let after_inode = self.write_data_block(inode, inode_block_index, data).1;
        assert(after_inode.data_block_map@[slot] == written.1[slot]);
        if all_zero(stored.block(linked.1[slot] as int)) {
            stored.lemma_free_block_wf(pointer as int);
            assert(written.1[slot] == 0);
            assert(written.0.data_block(after_inode, inode_block_index)->Ok_0 =~= data);
        } else {
            assert(written.0 == stored);
            assert(written.1[slot] == pointer);
        }
    }
}

} // verus!
