//! The counts of what is free on a consistent volume: when a block or an
//! inode can be taken, and what taking and giving back an inode does to such
//! a volume.

use crate::ext2::bitmap::{
    bit, clear_bit_count, first_clear_bit, is_first_clear_bit, lemma_clear_bit_count_with_bit, lemma_clear_bit_found, lemma_with_bit, with_bit,
};
use crate::ext2::descriptor::BlockGroupDescriptor;
use crate::ext2::inode::{Inode, INODE_PRACTICAL_SIZE};
use crate::ext2::volume::{
    counted_free_blocks, counted_free_inodes, lemma_block_size_bounds, Volume,
};
use crate::fs::Error;
use vstd::prelude::*;

verus! {

/// The descriptors count together at least as many free blocks, and free
/// inodes, as each of them counts, and none counts less than nothing.
pub proof fn lemma_counted_free(descriptors: Seq<BlockGroupDescriptor>, count: int)
    requires
        0 <= count <= descriptors.len(),
    ensures
        0 <= counted_free_blocks(descriptors, count),
        0 <= counted_free_inodes(descriptors, count),
        forall|group: int|
            0 <= group < count ==> (#[trigger] descriptors[group]).free_blocks_count
                <= counted_free_blocks(descriptors, count),
        forall|group: int|
            0 <= group < count ==> (#[trigger] descriptors[group]).free_inodes_count
                <= counted_free_inodes(descriptors, count),
    decreases count,
{
    if count > 0 {
        lemma_counted_free(descriptors, count - 1);
    }
}

impl Volume {
    /// The inode bitmap of its group marks inode `inode_index` as used.
    pub open spec fn inode_marked(self, inode_index: int) -> bool {
        bit(
            self.inode_bitmap(self.group_of_inode(inode_index)),
            self.index_in_group_of_inode(inode_index),
        )
    }

    /// No block changed between the two volumes but blocks of copies and the
    /// inode bitmap of group `group`.
    pub open spec fn blocks_kept_but_inode_bitmap(self, other: Volume, group: int) -> bool {
        forall|kept: int|
            0 <= kept < self.block_count() && !self.is_copy_block(kept) && kept
                != self.descriptors[group].inode_bitmap_block_index ==> #[trigger] other.block(kept)
                == self.block(kept)
    }

    /// The mark of inode `inode_index` has become `value`, and nothing else
    /// has changed: the second volume is consistent, with everything in the
    /// same places; no block has changed but blocks of copies and the inode
    /// bitmap of the group of the inode; no other inode is marked otherwise; no
    /// block is marked otherwise; and every inode is what it was.
    pub open spec fn inode_mark_changed(self, after: Volume, inode_index: int, value: bool) -> bool {
        &&& after.consistent()
        &&& self.same_places(after)
        &&& self.blocks_kept_but_inode_bitmap(after, self.group_of_inode(inode_index))
        &&& self.inode_marked(inode_index) != value
        &&& after.inode_marked(inode_index) == value
        &&& forall|kept: int|
            self.inode_in_range(kept) && kept != inode_index ==> #[trigger] after.inode_marked(kept)
                == self.inode_marked(kept)
        &&& forall|kept: int|
            self.block_in_groups(kept) ==> #[trigger] after.block_marked(kept)
                == self.block_marked(kept)
        &&& forall|kept: int|
            self.inode_in_range(kept) ==> #[trigger] after.inode(kept) == self.inode(kept)
        &&& self.in_use_kept(after, None)
    }

    /// Number of clear bits that the block bitmaps of the first `count`
    /// groups have among the blocks of their groups.
    pub open spec fn clear_block_bits(self, count: int) -> int
        decreases count,
    {
        if count <= 0 {
            0
        } else {
            self.clear_block_bits(count - 1) + clear_bit_count(
                self.block_bitmap(count - 1),
                self.group_len(count - 1),
            )
        }
    }

    /// Number of clear bits that the inode bitmaps of the first `count`
    /// groups have among the inodes of their groups.
    pub open spec fn clear_inode_bits(self, count: int) -> int
        decreases count,
    {
        if count <= 0 {
            0
        } else {
            self.clear_inode_bits(count - 1) + clear_bit_count(
                self.inode_bitmap(count - 1),
                self.superblock.inode_count_per_block_group as int,
            )
        }
    }

    /// On a consistent volume the first `count` descriptors count together
    /// as many free blocks, and free inodes, as the bitmaps of their groups
    /// have clear bits.
    pub proof fn lemma_counted_are_clear_bits(self, count: int)
        requires
            self.consistent(),
            0 <= count <= self.group_count(),
        ensures
            counted_free_blocks(self.descriptors, count) == self.clear_block_bits(count),
            counted_free_inodes(self.descriptors, count) == self.clear_inode_bits(count),
        decreases count,
    {
        if count > 0 {
            self.lemma_counted_are_clear_bits(count - 1);
            assert(self.blocks_counted(count - 1));
            assert(self.inodes_counted(count - 1));
        }
    }

    /// On a consistent volume the superblock counts as many free blocks as
    /// the descriptors do together, and as the block bitmaps have clear bits;
    /// and as many free inodes as the descriptors do together, and as the
    /// inode bitmaps have clear bits.
    pub proof fn lemma_counts_are_clear_bits(self)
        requires
            self.consistent(),
        ensures
            self.superblock.free_blocks_count == counted_free_blocks(
                self.descriptors,
                self.group_count(),
            ),
            self.superblock.free_blocks_count == self.clear_block_bits(self.group_count()),
            self.superblock.free_inodes_count == counted_free_inodes(
                self.descriptors,
                self.group_count(),
            ),
            self.superblock.free_inodes_count == self.clear_inode_bits(self.group_count()),
    {
        assert(self.group_count() >= 0) by {
            assert(self.descriptors.len() == self.group_count());
        }
        self.lemma_counted_are_clear_bits(self.group_count());
    }

    /// Where a group counts a free block, one group is the first to do so.
    pub proof fn lemma_group_with_free_blocks_found(self, group: int)
        requires
            0 <= group < self.descriptors.len(),
            self.descriptors[group].free_blocks_count > 0,
        ensures
            self.first_group_with_free_blocks() is Some,
            self.is_first_group_with_free_blocks(self.first_group_with_free_blocks()->Some_0),
        decreases group,
    {
        if exists|lower: int| 0 <= lower < group && self.descriptors[lower].free_blocks_count > 0 {
            let lower = choose|lower: int|
                0 <= lower < group && self.descriptors[lower].free_blocks_count > 0;
            self.lemma_group_with_free_blocks_found(lower);
        } else {
            assert(self.is_first_group_with_free_blocks(group));
        }
    }

    /// Where a group counts a free inode, one group is the first to do so.
    pub proof fn lemma_group_with_free_inodes_found(self, group: int)
        requires
            0 <= group < self.descriptors.len(),
            self.descriptors[group].free_inodes_count > 0,
        ensures
            self.first_group_with_free_inodes() is Some,
            self.is_first_group_with_free_inodes(self.first_group_with_free_inodes()->Some_0),
        decreases group,
    {
        if exists|lower: int| 0 <= lower < group && self.descriptors[lower].free_inodes_count > 0 {
            let lower = choose|lower: int|
                0 <= lower < group && self.descriptors[lower].free_inodes_count > 0;
            self.lemma_group_with_free_inodes_found(lower);
        } else {
            assert(self.is_first_group_with_free_inodes(group));
        }
    }

    /// On a consistent volume a block is taken where, and only where, the
    /// superblock counts a free one: there is no space where it counts none,
    /// and the volume is never found corrupt.
    pub proof fn lemma_allocate_block_decided(self)
        requires
            self.consistent(),
        ensures
            self.superblock.free_blocks_count > 0 ==> self.allocate_block().1 is Ok,
            self.superblock.free_blocks_count == 0 ==> self.allocate_block() == (
                self,
                Err::<u64, Error>(Error::NoSpace),
            ),
    {
        lemma_counted_free(self.descriptors, self.descriptors.len() as int);
        if self.superblock.free_blocks_count > 0 {
            assert(exists|group: int|
                0 <= group < self.descriptors.len() && (
                #[trigger] self.descriptors[group]).free_blocks_count > 0) by {
                Self::lemma_some_count(self.descriptors, self.descriptors.len() as int);
            }
            let some = choose|group: int|
                0 <= group < self.descriptors.len() && (
                #[trigger] self.descriptors[group]).free_blocks_count > 0;
            self.lemma_group_with_free_blocks_found(some);
            let group = self.first_group_with_free_blocks()->Some_0;
            assert(self.blocks_counted(group));
            self.lemma_group_range(group);
            lemma_clear_bit_found(self.block_bitmap(group), self.group_len(group));
        } else {
            if self.first_group_with_free_blocks() is Some {
                let group = self.first_group_with_free_blocks()->Some_0;
                assert(self.is_first_group_with_free_blocks(group));
                assert(self.descriptors[group].free_blocks_count <= 0);
            }
        }
    }

    /// Where the descriptors count something together, one of them counts
    /// something.
    proof fn lemma_some_count(descriptors: Seq<BlockGroupDescriptor>, count: int)
        requires
            0 <= count <= descriptors.len(),
        ensures
            counted_free_blocks(descriptors, count) > 0 ==> exists|group: int|
                0 <= group < count && (#[trigger] descriptors[group]).free_blocks_count > 0,
            counted_free_inodes(descriptors, count) > 0 ==> exists|group: int|
                0 <= group < count && (#[trigger] descriptors[group]).free_inodes_count > 0,
        decreases count,
    {
        if count > 0 {
            Self::lemma_some_count(descriptors, count - 1);
            if counted_free_blocks(descriptors, count) > 0 {
                if descriptors[count - 1].free_blocks_count > 0 {
                } else {
                    let group = choose|group: int|
                        0 <= group < count - 1 && (#[trigger] descriptors[group]).free_blocks_count
                            > 0;
                    assert(descriptors[group].free_blocks_count > 0);
                }
            }
            if counted_free_inodes(descriptors, count) > 0 {
                if descriptors[count - 1].free_inodes_count > 0 {
                } else {
                    let group = choose|group: int|
                        0 <= group < count - 1 && (#[trigger] descriptors[group]).free_inodes_count
                            > 0;
                    assert(descriptors[group].free_inodes_count > 0);
                }
            }
        }
    }

    /// Inode `index` of group `group` is an inode of the volume, found again
    /// in that group at that place.
    pub proof fn lemma_inode_of_group(self, group: int, index: int)
        requires
            self.wf(),
            0 <= group < self.group_count(),
            0 <= index < self.superblock.inode_count_per_block_group,
        ensures
            self.inode_in_range(self.inode_index(group, index)),
            self.group_of_inode(self.inode_index(group, index)) == group,
            self.index_in_group_of_inode(self.inode_index(group, index)) == index,
            index < 8 * self.block_size(),
    {
        let per_group = self.superblock.inode_count_per_block_group as int;
        assert(0 <= group * per_group) by (nonlinear_arith)
            requires
                0 <= group,
                0 <= per_group,
        ;
        assert(group * per_group + per_group <= self.group_count() * per_group)
            by (nonlinear_arith)
            requires
                0 <= group < self.group_count(),
                0 <= per_group,
        ;
        vstd::arithmetic::div_mod::lemma_fundamental_div_mod_converse(
            group * per_group + index,
            per_group,
            group,
            index,
        );
    }

    /// An inode is read from the block of the inode table that holds its
    /// record: the inode is the same in two volumes with everything in the
    /// same places in which that block is the same.
    pub proof fn lemma_inode_kept(self, after: Volume, inode_index: int)
        requires
            self.wf(),
            self.same_places(after),
            self.inode_in_range(inode_index),
            after.block(self.inode_start(inode_index) / self.block_size()) == self.block(
                self.inode_start(inode_index) / self.block_size(),
            ),
        ensures
            after.inode(inode_index) == self.inode(inode_index),
    {
        self.lemma_same_places(after);
        self.lemma_inode_place(inode_index);
        lemma_block_size_bounds(self.superblock);
        let bs = self.block_size();
        let start = self.inode_start(inode_index);
        let block_index = start / bs;
        self.lemma_block_in_disk(block_index);
        vstd::arithmetic::div_mod::lemma_fundamental_div_mod(start, bs);
        assert(bs * block_index == block_index * bs) by (nonlinear_arith);
        let offset = start % bs;
        assert(after.inode_start(inode_index) == start);
        assert(after.disk.subrange(start, start + INODE_PRACTICAL_SIZE) =~= self.disk.subrange(
            start,
            start + INODE_PRACTICAL_SIZE,
        )) by {
            assert forall|byte: int|
                start <= byte < start + INODE_PRACTICAL_SIZE implies #[trigger] after.disk[byte]
                == self.disk[byte] by {
                let i = byte - block_index * bs;
                assert(after.block(block_index)[i] == self.block(block_index)[i]);
            }
        }
    }

    /// Storing an inode changes that inode alone: every other inode is what
    /// it was, and no inode is marked otherwise.
    pub proof fn lemma_with_inode_keeps_others(self, inode_index: int, stored: Inode, kept: int)
        requires
            self.consistent(),
            self.inode_in_range(inode_index),
            self.inode_in_range(kept),
        ensures
            kept != inode_index ==> self.with_inode(inode_index, stored).inode(kept) == self.inode(
                kept,
            ),
            self.with_inode(inode_index, stored).inode_marked(kept) == self.inode_marked(kept),
    {
        let after = self.with_inode(inode_index, stored);
        self.lemma_with_inode_effect(inode_index, stored);
        self.lemma_same_places(after);
        self.lemma_inode_place(inode_index);
        self.lemma_inode_place(kept);
        lemma_block_size_bounds(self.superblock);
        let bs = self.block_size();
        let size = self.superblock.inode_size as int;
        let group = self.group_of_inode(inode_index);
        let kept_group = self.group_of_inode(kept);
        let start = self.inode_start(inode_index);
        let kept_start = self.inode_start(kept);
        let table_block = start / bs;
        let kept_block = kept_start / bs;
        assert(self.descriptor_in_range(kept_group));
        assert(self.tables_apart_of(kept_group, group));
        assert(self.is_inode_table_block_of(group, table_block));
        assert(self.is_inode_table_block_of(kept_group, kept_block));
        assert(after.inode_bitmap(kept_group) == self.inode_bitmap(kept_group));
        if kept != inode_index {
            if kept_block != table_block {
                self.lemma_inode_kept(after, kept);
            } else {
                let index = self.index_in_group_of_inode(inode_index);
                let kept_index = self.index_in_group_of_inode(kept);
                assert(kept_group == group);
                assert(kept_index != index);
                let first = self.descriptors[group].inode_table_first_block_index * bs;
                assert(kept_start + size <= start || start + size <= kept_start)
                    by (nonlinear_arith)
                    requires
                        kept_index != index,
                        kept_start == first + kept_index * size,
                        start == first + index * size,
                        size >= 0,
                ;
                stored.lemma_written_over_is_encoded(
                    crate::bytes::zero_bytes(INODE_PRACTICAL_SIZE as nat),
                );
                assert(after.disk.subrange(kept_start, kept_start + INODE_PRACTICAL_SIZE)
                    =~= self.disk.subrange(kept_start, kept_start + INODE_PRACTICAL_SIZE));
            }
        }
    }

    /// What counting an inode of group `group` up or down, storing the
    /// copies and changing the bit of the inode does: the mark of the inode
    /// changes, and nothing else (`inode_mark_changed`).
    pub proof fn lemma_inode_bitmap_step(self, group: int, change: int, index: int, value: bool)
        requires
            self.consistent(),
            0 <= group < self.group_count(),
            0 <= index < self.superblock.inode_count_per_block_group,
            0 <= self.superblock.free_inodes_count + change <= u32::MAX,
            0 <= self.descriptors[group].free_inodes_count + change <= u16::MAX,
            bit(self.inode_bitmap(group), index) != value,
            change == if value {
                -1int
            } else {
                1int
            },
        ensures
            self.inode_mark_changed(
                self.with_free_inodes_changed(group, change).with_copies().with_block(
                    self.descriptors[group].inode_bitmap_block_index as int,
                    with_bit(self.inode_bitmap(group), index, value),
                ),
                self.inode_index(group, index),
                value,
            ),
    {
        let bitmap = self.inode_bitmap(group);
        let bitmap_block = self.descriptors[group].inode_bitmap_block_index as int;
        let inode_index = self.inode_index(group, index);
        let changed = with_bit(bitmap, index, value);
        let counted = self.with_free_inodes_changed(group, change);
        let copied = counted.with_copies();
        let after = copied.with_block(bitmap_block, changed);
        let per_group = self.superblock.inode_count_per_block_group as int;
        self.lemma_with_free_inodes_changed_wf(group, change);
        counted.lemma_with_copies_upto(counted.group_count());
        counted.lemma_same_layout(copied);
        self.lemma_same_places(counted);
        self.lemma_same_places(copied);
        self.lemma_same_places(after);
        copied.lemma_with_bytes_wf(bitmap_block * copied.block_size(), changed);
        assert(self.descriptor_in_range(group));
        lemma_block_size_bounds(self.superblock);
        self.lemma_block_in_disk(bitmap_block);
        self.lemma_inode_of_group(group, index);
        copied.lemma_with_block_read_back(bitmap_block, changed);
        lemma_with_bit(bitmap, index, value, index);
        assert(self.is_table_block_of(group, bitmap_block));
        assert(!self.is_copy_block(bitmap_block));
        counted.lemma_copies_keep_other_blocks(bitmap_block);
        assert(self.blocks_kept_but_inode_bitmap(after, group)) by {
            assert forall|kept: int|
                0 <= kept < self.block_count() && !self.is_copy_block(kept) && kept
                    != bitmap_block implies #[trigger] after.block(kept) == self.block(kept) by {
                counted.lemma_copies_keep_other_blocks(kept);
            }
        }
        assert(after.inode_bitmap(group) == changed);
        assert(after.constants() == self.constants());
        self.lemma_inode_step_tables(after, group);
        assert forall|kept: int| self.inode_in_range(kept) implies #[trigger] after.inode(kept)
            == self.inode(kept) by {
            self.lemma_inode_place(kept);
            let table_block = self.inode_start(kept) / self.block_size();
            let kept_group = self.group_of_inode(kept);
            assert(self.is_table_block_of(kept_group, table_block));
            assert(self.tables_apart_of(group, kept_group));
            assert(self.is_inode_table_block_of(kept_group, table_block));
            self.lemma_inode_kept(after, kept);
        }
        assert forall|kept: int|
            self.inode_in_range(kept) && kept != inode_index implies #[trigger] after.inode_marked(
            kept,
        ) == self.inode_marked(kept) by {
            self.lemma_inode_place(kept);
            let kept_group = self.group_of_inode(kept);
            let kept_index = self.index_in_group_of_inode(kept);
            assert(after.group_of_inode(kept) == kept_group);
            assert(after.index_in_group_of_inode(kept) == kept_index);
            if kept_group == group {
                lemma_with_bit(bitmap, index, value, kept_index);
            }
        }
        assert forall|kept: int| self.block_in_groups(kept) implies #[trigger] after.block_marked(
            kept,
        ) == self.block_marked(kept) by {
            self.lemma_group_of_block(kept);
        }
        assert forall|g: int| 0 <= g < after.group_count() implies #[trigger] after.inodes_counted(
            g,
        ) by {
            assert(self.inodes_counted(g));
            if g == group {
                lemma_clear_bit_count_with_bit(bitmap, per_group, index, value);
            }
        }
        assert forall|g: int| 0 <= g < after.group_count() implies #[trigger] after.blocks_counted(
            g,
        ) by {
            assert(self.blocks_counted(g));
        }
        assert(after.metadata_marked()) by {
            assert forall|x: int|
                after.block_in_groups(x) && #[trigger] after.is_metadata_block(
                    x,
                ) implies after.block_marked(x) by {
                assert(self.is_metadata_block(x));
                assert(self.block_marked(x));
                assert(after.block_marked(x) == self.block_marked(x));
            }
        }
        assert(self.in_use_kept(after, None)) by {
            assert forall|kept: int| #[trigger] self.block_in_use(kept) implies after.block(kept)
                == self.block(kept) && after.block_in_use(kept) by {
                if kept == bitmap_block {
                    assert(self.is_table_block_of(group, kept));
                }
                if self.is_copy_block(kept) {
                    let g = choose|g: int| self.is_copy_block_of(g, kept);
                    assert(self.is_copy_block_of(g, kept));
                }
                assert(after.block_marked(kept) == self.block_marked(kept));
            }
        }
    }

    /// Where no block has changed but blocks of copies and the inode bitmap
    /// of group `group`, the bitmaps of the groups are what they were, but
    /// that inode bitmap.
    proof fn lemma_inode_step_tables(self, after: Volume, group: int)
        requires
            self.wf(),
            self.tables_apart(),
            self.same_places(after),
            0 <= group < self.group_count(),
            self.blocks_kept_but_inode_bitmap(after, group),
        ensures
            forall|kept: int|
                0 <= kept < self.group_count() ==> #[trigger] after.block_bitmap(kept)
                    == self.block_bitmap(kept),
            forall|kept: int|
                0 <= kept < self.group_count() && kept != group ==> #[trigger] after.inode_bitmap(
                    kept,
                ) == self.inode_bitmap(kept),
    {
        self.lemma_same_places(after);
        assert forall|kept: int| 0 <= kept < self.group_count() implies #[trigger] after.block_bitmap(
            kept,
        ) == self.block_bitmap(kept) by {
            assert(self.descriptor_in_range(kept));
            assert(self.tables_apart_of(kept, group));
            let block_bitmap = self.descriptors[kept].block_bitmap_block_index as int;
            assert(self.is_table_block_of(kept, block_bitmap));
            assert(after.descriptors[kept].block_bitmap_block_index == block_bitmap);
            assert(after.block(block_bitmap) == self.block(block_bitmap));
        }
        assert forall|kept: int|
            0 <= kept < self.group_count() && kept != group implies #[trigger] after.inode_bitmap(
            kept,
        ) == self.inode_bitmap(kept) by {
            assert(self.descriptor_in_range(kept));
            assert(self.tables_apart_of(kept, group));
            let inode_bitmap = self.descriptors[kept].inode_bitmap_block_index as int;
            assert(self.is_table_block_of(kept, inode_bitmap));
            assert(after.descriptors[kept].inode_bitmap_block_index == inode_bitmap);
            assert(after.block(inode_bitmap) == self.block(inode_bitmap));
        }
    }

    /// On a consistent volume whose reserved inodes are all marked as used,
    /// an inode is taken where, and only where, the superblock counts a free
    /// one; there is no space where it counts none.
    pub proof fn lemma_allocate_inode_decided(self)
        requires
            self.consistent(),
        ensures
            self.superblock.free_inodes_count == 0 ==> self.allocate_inode() == (
                self,
                Err::<u64, Error>(Error::NoSpace),
            ),
            self.superblock.free_inodes_count > 0 && (forall|reserved: int|
                1 <= reserved < self.superblock.first_usable_inode_index && self.inode_in_range(
                    reserved,
                ) ==> #[trigger] self.inode_marked(reserved)) ==> self.allocate_inode().1 is Ok,
    {
        lemma_counted_free(self.descriptors, self.descriptors.len() as int);
        let per_group = self.superblock.inode_count_per_block_group as int;
        if self.superblock.free_inodes_count > 0 {
            assert(exists|group: int|
                0 <= group < self.descriptors.len() && (
                #[trigger] self.descriptors[group]).free_inodes_count > 0) by {
                Self::lemma_some_count(self.descriptors, self.descriptors.len() as int);
            }
            let some = choose|group: int|
                0 <= group < self.descriptors.len() && (
                #[trigger] self.descriptors[group]).free_inodes_count > 0;
            self.lemma_group_with_free_inodes_found(some);
            let group = self.first_group_with_free_inodes()->Some_0;
            assert(self.inodes_counted(group));
            lemma_clear_bit_found(self.inode_bitmap(group), per_group);
            let index = first_clear_bit(self.inode_bitmap(group), per_group)->Some_0;
            self.lemma_inode_of_group(group, index);
            let found = self.inode_index(group, index);
            assert(!self.inode_marked(found));
        } else {
            if self.first_group_with_free_inodes() is Some {
                let group = self.first_group_with_free_inodes()->Some_0;
                assert(self.is_first_group_with_free_inodes(group));
                assert(self.descriptors[group].free_inodes_count <= 0);
            }
        }
    }

    /// What taking an inode does to a consistent volume: the inode was not
    /// marked and is, it is none of the reserved ones, and nothing else has
    /// changed (`inode_mark_changed`).
    pub proof fn lemma_allocate_inode_effect(self)
        requires
            self.consistent(),
            self.allocate_inode().1 is Ok,
        ensures
            self.inode_in_range(self.allocate_inode().1->Ok_0 as int),
            self.superblock.first_usable_inode_index <= self.allocate_inode().1->Ok_0,
            self.inode_mark_changed(
                self.allocate_inode().0,
                self.allocate_inode().1->Ok_0 as int,
                true,
            ),
    {
        let group = self.first_group_with_free_inodes()->Some_0;
        assert(self.is_first_group_with_free_inodes(group));
        let per_group = self.superblock.inode_count_per_block_group as int;
        let bitmap = self.inode_bitmap(group);
        let index = first_clear_bit(bitmap, per_group)->Some_0;
        assert(is_first_clear_bit(bitmap, per_group, index));
        self.lemma_inode_of_group(group, index);
        assert(self.descriptor_in_range(group));
        lemma_block_size_bounds(self.superblock);
        assert(self.superblock.layout_ok());
        assert(per_group <= 8 * self.block_size());
        assert(self.inode_count() <= 0x1_0000 * 0x400_0000) by (nonlinear_arith)
            requires
                self.inode_count() == self.group_count() * per_group,
                0 <= self.group_count() <= 0x1_0000,
                0 <= per_group <= 0x400_0000,
        ;
        self.lemma_inode_bitmap_step(group, -1, index, true);
    }

    /// What giving back an inode does to a consistent volume: the inode was
    /// marked and is not, and nothing else has changed (`inode_mark_changed`).
    pub proof fn lemma_free_inode_effect(self, inode_index: int)
        requires
            self.consistent(),
            self.inode_in_range(inode_index),
            self.free_inode(inode_index).1 is Ok,
        ensures
            self.inode_mark_changed(self.free_inode(inode_index).0, inode_index, false),
    {
        self.lemma_inode_place(inode_index);
        let group = self.group_of_inode(inode_index);
        let index = self.index_in_group_of_inode(inode_index);
        assert(self.descriptor_in_range(group));
        self.lemma_inode_bitmap_step(group, 1, index, false);
    }
}

} // verus!
