//! Consistent volumes: the blocks of files, the bitmaps, the inode tables
//! and the copies of the superblock keep apart, and the counts of what is
//! free are those of the bitmaps. What taking and giving back a block does to
//! such a volume.

use crate::bytes::zero_bytes;
use crate::ext2::bitmap::{
    bit, clear_bit_count, first_clear_bit, is_first_clear_bit, lemma_clear_bit_count_with_bit,
    lemma_with_bit, with_bit,
};
use crate::ext2::volume::{lemma_block_size_bounds, Volume};
use vstd::prelude::*;

verus! {

impl Volume {
    /// Block `block_index` holds what the filesystem keeps for itself in
    /// group `group`: a bitmap, or a part of the inode table.
    pub open spec fn is_table_block_of(self, group: int, block_index: int) -> bool {
        &&& 0 <= group < self.group_count()
        &&& {
            ||| self.descriptors[group].block_bitmap_block_index == block_index
            ||| self.descriptors[group].inode_bitmap_block_index == block_index
            ||| self.descriptors[group].inode_table_first_block_index <= block_index
                < self.descriptors[group].inode_table_first_block_index
                + self.inode_table_block_count()
        }
    }

    /// Block `block_index` holds what the filesystem keeps for itself: a copy
    /// of the superblock or of the descriptor table, a bitmap, or a part of
    /// the inode table.
    pub open spec fn is_metadata_block(self, block_index: int) -> bool {
        ||| exists|group: int| self.is_copy_block_of(group, block_index)
        ||| exists|group: int| self.is_table_block_of(group, block_index)
    }

    /// The block bitmap of its group marks block `block_index` as used.
    pub open spec fn block_marked(self, block_index: int) -> bool {
        bit(
            self.block_bitmap(self.group_of_block(block_index)),
            block_index - self.group_start(self.group_of_block(block_index)),
        )
    }

    /// Block `block_index` is a part of the inode table of group `group`.
    pub open spec fn is_inode_table_block_of(self, group: int, block_index: int) -> bool {
        &&& 0 <= group < self.group_count()
        &&& self.descriptors[group].inode_table_first_block_index <= block_index
            < self.descriptors[group].inode_table_first_block_index
            + self.inode_table_block_count()
    }

    /// The bitmaps and the inode tables of the groups `group` and `other`
    /// keep apart: no block is two of them, but that a group is itself.
    pub open spec fn tables_apart_of(self, group: int, other: int) -> bool {
        let first = self.descriptors[group];
        let second = self.descriptors[other];
        &&& first.block_bitmap_block_index != second.inode_bitmap_block_index
        &&& !self.is_inode_table_block_of(other, first.block_bitmap_block_index as int)
        &&& !self.is_inode_table_block_of(other, first.inode_bitmap_block_index as int)
        &&& group != other ==> {
            &&& first.block_bitmap_block_index != second.block_bitmap_block_index
            &&& first.inode_bitmap_block_index != second.inode_bitmap_block_index
            &&& forall|block_index: int|
                !(self.is_inode_table_block_of(group, block_index) && #[trigger] self.is_inode_table_block_of(
                    other,
                    block_index,
                ))
        }
    }

    /// The metadata is laid out apart: the bitmaps and the inode tables of
    /// the groups are blocks of their own, and none of them is a block of
    /// copies.
    pub open spec fn tables_apart(self) -> bool {
        &&& forall|group: int, other: int|
            0 <= group < self.group_count() && 0 <= other < self.group_count()
                ==> #[trigger] self.tables_apart_of(group, other)
        &&& forall|group: int, block_index: int|
            #[trigger] self.is_table_block_of(group, block_index) ==> !self.is_copy_block(
                block_index,
            )
    }

    /// The block bitmaps mark as used every block of the groups that holds
    /// metadata.
    pub open spec fn metadata_marked(self) -> bool {
        forall|block_index: int|
            self.block_in_groups(block_index) && #[trigger] self.is_metadata_block(block_index)
                ==> self.block_marked(block_index)
    }

    /// The descriptor of group `group` counts as many free blocks as the
    /// block bitmap of the group has clear bits among the blocks of the group.
    pub open spec fn blocks_counted(self, group: int) -> bool {
        self.descriptors[group].free_blocks_count == clear_bit_count(
            self.block_bitmap(group),
            self.group_len(group),
        )
    }

    /// The descriptor of group `group` counts as many free inodes as the
    /// inode bitmap of the group has clear bits among the inodes of the group.
    pub open spec fn inodes_counted(self, group: int) -> bool {
        self.descriptors[group].free_inodes_count == clear_bit_count(
            self.inode_bitmap(group),
            self.superblock.inode_count_per_block_group as int,
        )
    }

    /// The volume is consistent: it is sound (`wf`); its metadata is laid
    /// out apart (`tables_apart`); the block bitmaps mark as used every block
    /// that holds metadata; the superblock counts as many free blocks, and as
    /// many free inodes, as the descriptors do together; and each descriptor
    /// counts as many as the bitmaps of its group have clear bits.
    pub open spec fn consistent(self) -> bool {
        &&& self.wf()
        &&& self.tables_apart()
        &&& self.metadata_marked()
        &&& self.counts_agree()
        &&& forall|group: int| 0 <= group < self.group_count() ==> #[trigger] self.blocks_counted(group)
        &&& forall|group: int| 0 <= group < self.group_count() ==> #[trigger] self.inodes_counted(group)
    }

    /// Block `block_index` can hold the data of a file: it is a block of the
    /// groups that holds no metadata, and its bitmap marks it as used.
    pub open spec fn block_in_use(self, block_index: int) -> bool {
        &&& self.block_in_groups(block_index)
        &&& !self.is_metadata_block(block_index)
        &&& self.block_marked(block_index)
    }

    /// The two volumes have everything in the same places: they differ in
    /// what the blocks hold, and in the counts of what is free, at most.
    pub open spec fn same_places(self, other: Volume) -> bool {
        &&& other.superblock == (crate::ext2::superblock::Superblock {
            free_blocks_count: other.superblock.free_blocks_count,
            free_inodes_count: other.superblock.free_inodes_count,
            ..self.superblock
        })
        &&& other.descriptors.len() == self.descriptors.len()
        &&& forall|group: int|
            0 <= group < self.descriptors.len() ==> (#[trigger] other.descriptors[group])
                == (crate::ext2::descriptor::BlockGroupDescriptor {
                free_blocks_count: other.descriptors[group].free_blocks_count,
                free_inodes_count: other.descriptors[group].free_inodes_count,
                ..self.descriptors[group]
            })
        &&& other.disk.len() == self.disk.len()
    }

    /// No block changed between the two volumes but blocks of copies, the
    /// block bitmap of group `group`, and the block `block_index`.
    pub open spec fn blocks_kept_but(self, other: Volume, group: int, block_index: int) -> bool {
        forall|kept: int|
            0 <= kept < self.block_count() && !self.is_copy_block(kept) && kept
                != self.descriptors[group].block_bitmap_block_index && kept != block_index
                ==> #[trigger] other.block(kept) == self.block(kept)
    }

    /// No block of the groups is marked otherwise in the second volume than
    /// in the first, but the block `block_index`.
    pub open spec fn marks_kept_but(self, other: Volume, block_index: int) -> bool {
        forall|kept: int|
            self.block_in_groups(kept) && kept != block_index ==> #[trigger] other.block_marked(
                kept,
            ) == self.block_marked(kept)
    }

    /// Block `block_index` holds inodes of group `group`, or their marks: it
    /// is the inode bitmap of the group, or a part of its inode table.
    pub open spec fn is_inode_block_of(self, group: int, block_index: int) -> bool {
        &&& 0 <= group < self.group_count()
        &&& {
            ||| self.descriptors[group].inode_bitmap_block_index == block_index
            ||| self.descriptors[group].inode_table_first_block_index <= block_index
                < self.descriptors[group].inode_table_first_block_index
                + self.inode_table_block_count()
        }
    }

    /// The blocks that hold inodes and their marks are in the second volume
    /// what they are in the first.
    #[verifier::opaque]
    pub open spec fn inode_blocks_kept(self, other: Volume) -> bool {
        forall|group: int, block_index: int| #[trigger]
            self.is_inode_block_of(group, block_index) ==> other.block(block_index) == self.block(
                block_index,
            )
    }

    /// Volumes with everything in the same places have the same layout.
    pub proof fn lemma_same_places(self, other: Volume)
        requires
            self.wf(),
            self.same_places(other),
        ensures
            other.block_size() == self.block_size(),
            other.block_count() == self.block_count(),
            other.group_count() == self.group_count(),
            other.table_block_count() == self.table_block_count(),
            other.inode_table_block_count() == self.inode_table_block_count(),
            other.inode_count() == self.inode_count(),
            forall|group: int| other.group_start(group) == self.group_start(group),
            forall|group: int| other.group_end(group) == self.group_end(group),
            forall|block_index: int|
                other.group_of_block(block_index) == self.group_of_block(block_index),
            forall|block_index: int|
                other.block_in_groups(block_index) == self.block_in_groups(block_index),
            forall|group: int, block_index: int|
                other.is_copy_block_of(group, block_index) == self.is_copy_block_of(
                    group,
                    block_index,
                ),
            forall|group: int, block_index: int|
                other.is_table_block_of(group, block_index) == self.is_table_block_of(
                    group,
                    block_index,
                ),
            forall|block_index: int|
                other.is_copy_block(block_index) == self.is_copy_block(block_index),
            forall|block_index: int|
                other.is_metadata_block(block_index) == self.is_metadata_block(block_index),
            forall|inode_index: int|
                0 <= self.group_of_inode(inode_index) < self.group_count() ==> other.inode_start(
                    inode_index,
                ) == self.inode_start(inode_index),
            other.tables_apart() == self.tables_apart(),
    {
        self.lemma_tables_apart_same_places(other);
        assert forall|block_index: int|
            other.is_copy_block(block_index) == self.is_copy_block(block_index) by {
            if self.is_copy_block(block_index) {
                let group = choose|group: int| self.is_copy_block_of(group, block_index);
                assert(other.is_copy_block_of(group, block_index));
            }
            if other.is_copy_block(block_index) {
                let group = choose|group: int| other.is_copy_block_of(group, block_index);
                assert(self.is_copy_block_of(group, block_index));
            }
        }
        assert forall|group: int, block_index: int|
            other.is_table_block_of(group, block_index) == self.is_table_block_of(
                group,
                block_index,
            ) by {
            if 0 <= group < self.group_count() {
                assert(other.descriptors[group].block_bitmap_block_index
                    == self.descriptors[group].block_bitmap_block_index);
            }
        }
        assert forall|inode_index: int|
            0 <= self.group_of_inode(inode_index) < self.group_count() implies other.inode_start(
            inode_index,
        ) == self.inode_start(inode_index) by {
            let group = self.group_of_inode(inode_index);
            assert(other.descriptors[group].inode_table_first_block_index
                == self.descriptors[group].inode_table_first_block_index);
        }
        assert forall|block_index: int|
            other.is_metadata_block(block_index) == self.is_metadata_block(block_index) by {
            if self.is_metadata_block(block_index) {
                if exists|group: int| self.is_copy_block_of(group, block_index) {
                    let group = choose|group: int| self.is_copy_block_of(group, block_index);
                    assert(other.is_copy_block_of(group, block_index));
                } else {
                    let group = choose|group: int| self.is_table_block_of(group, block_index);
                    assert(other.is_table_block_of(group, block_index));
                }
            }
            if other.is_metadata_block(block_index) {
                if exists|group: int| other.is_copy_block_of(group, block_index) {
                    let group = choose|group: int| other.is_copy_block_of(group, block_index);
                    assert(self.is_copy_block_of(group, block_index));
                } else {
                    let group = choose|group: int| other.is_table_block_of(group, block_index);
                    assert(self.is_table_block_of(group, block_index));
                }
            }
        }
    }

    /// Volumes with everything in the same places have their metadata laid
    /// out apart together.
    proof fn lemma_tables_apart_same_places(self, other: Volume)
        requires
            self.wf(),
            self.same_places(other),
        ensures
            other.tables_apart() == self.tables_apart(),
    {
        assert forall|group: int, block_index: int|
            other.is_table_block_of(group, block_index) == self.is_table_block_of(
                group,
                block_index,
            ) by {
            if 0 <= group < self.group_count() {
                assert(other.descriptors[group].block_bitmap_block_index
                    == self.descriptors[group].block_bitmap_block_index);
            }
        }
        assert forall|group: int, block_index: int|
            other.is_inode_table_block_of(group, block_index) == self.is_inode_table_block_of(
                group,
                block_index,
            ) by {
            if 0 <= group < self.group_count() {
                assert(other.descriptors[group].block_bitmap_block_index
                    == self.descriptors[group].block_bitmap_block_index);
            }
        }
        assert forall|block_index: int|
            other.is_copy_block(block_index) == self.is_copy_block(block_index) by {
            if self.is_copy_block(block_index) {
                let group = choose|group: int| self.is_copy_block_of(group, block_index);
                assert(other.is_copy_block_of(group, block_index));
            }
            if other.is_copy_block(block_index) {
                let group = choose|group: int| other.is_copy_block_of(group, block_index);
                assert(self.is_copy_block_of(group, block_index));
            }
        }
        assert forall|group: int, second: int|
            0 <= group < self.group_count() && 0 <= second < self.group_count()
                implies other.tables_apart_of(group, second) == self.tables_apart_of(
            group,
            second,
        ) by {
            assert(other.descriptors[group].block_bitmap_block_index
                == self.descriptors[group].block_bitmap_block_index);
            assert(other.descriptors[second].block_bitmap_block_index
                == self.descriptors[second].block_bitmap_block_index);
        }
        if self.tables_apart() {
            assert forall|group: int, second: int|
                0 <= group < other.group_count() && 0 <= second < other.group_count()
                    implies #[trigger] other.tables_apart_of(group, second) by {
                assert(self.tables_apart_of(group, second));
            }
            assert forall|group: int, block_index: int| #[trigger]
                other.is_table_block_of(group, block_index) implies !other.is_copy_block(
                block_index,
            ) by {
                assert(self.is_table_block_of(group, block_index));
            }
        }
        if other.tables_apart() {
            assert forall|group: int, second: int|
                0 <= group < self.group_count() && 0 <= second < self.group_count()
                    implies #[trigger] self.tables_apart_of(group, second) by {
                assert(other.tables_apart_of(group, second));
            }
            assert forall|group: int, block_index: int| #[trigger]
                self.is_table_block_of(group, block_index) implies !self.is_copy_block(
                block_index,
            ) by {
                assert(other.is_table_block_of(group, block_index));
            }
        }
    }

    /// A block of a group is a block of the groups, and the group is the one
    /// that `group_of_block` names.
    pub proof fn lemma_block_of_group(self, group: int, index: int)
        requires
            self.wf(),
            0 <= group < self.group_count(),
            0 <= index < self.group_len(group),
        ensures
            self.block_in_groups(self.group_start(group) + index),
            self.group_of_block(self.group_start(group) + index) == group,
            index < 8 * self.block_size(),
    {
        let per_group = self.superblock.block_count_per_block_group as int;
        self.lemma_group_range(group);
        assert(0 <= group * per_group) by (nonlinear_arith)
            requires
                0 <= group,
                0 <= per_group,
        ;
        assert(per_group * group == group * per_group) by (nonlinear_arith);
        vstd::arithmetic::div_mod::lemma_fundamental_div_mod_converse(
            group * per_group + index,
            per_group,
            group,
            index,
        );
    }

    /// What counting a block of group `group` up or down, storing the copies
    /// and changing the bit of the block does: everything stays in its place,
    /// no block changes but blocks of copies and the bitmap of the group, no
    /// mark changes but that of the block, and the volume stays consistent.
    pub proof fn lemma_bitmap_step(self, group: int, change: int, index: int, value: bool)
        requires
            self.consistent(),
            0 <= group < self.group_count(),
            0 <= index < self.group_len(group),
            !self.is_metadata_block(self.group_start(group) + index),
            0 <= self.superblock.free_blocks_count + change <= u32::MAX,
            0 <= self.descriptors[group].free_blocks_count + change <= u16::MAX,
            bit(self.block_bitmap(group), index) != value,
            change == if value {
                -1int
            } else {
                1int
            },
        ensures
            ({
                let after = self.with_free_blocks_changed(group, change).with_copies().with_block(
                    self.descriptors[group].block_bitmap_block_index as int,
                    with_bit(self.block_bitmap(group), index, value),
                );
                let block_index = self.group_start(group) + index;
                &&& after.consistent()
                &&& self.same_places(after)
                &&& self.blocks_kept_but(after, group, block_index)
                &&& self.marks_kept_but(after, block_index)
                &&& after.block_marked(block_index) == value
                &&& (self.is_copy_block(block_index) || after.block(block_index) == self.block(
                    block_index,
                ))
            }),
    {
        let bitmap = self.block_bitmap(group);
        let bitmap_block = self.descriptors[group].block_bitmap_block_index as int;
        let block_index = self.group_start(group) + index;
        let changed = with_bit(bitmap, index, value);
        let counted = self.with_free_blocks_changed(group, change);
        let copied = counted.with_copies();
        let after = copied.with_block(bitmap_block, changed);
        self.lemma_with_free_blocks_changed_wf(group, change);
        counted.lemma_with_copies_upto(counted.group_count());
        counted.lemma_same_layout(copied);
        self.lemma_same_places(counted);
        self.lemma_same_places(copied);
        self.lemma_same_places(after);
        copied.lemma_with_bytes_wf(bitmap_block * copied.block_size(), changed);
        assert(self.descriptor_in_range(group));
        lemma_block_size_bounds(self.superblock);
        self.lemma_block_in_disk(bitmap_block);
        self.lemma_block_of_group(group, index);
        copied.lemma_with_block_read_back(bitmap_block, changed);
        lemma_with_bit(bitmap, index, value, index);
        // the bitmap of the group was not touched by the copies
        assert(self.is_table_block_of(group, bitmap_block));
        assert(!self.is_copy_block(bitmap_block));
        counted.lemma_copies_keep_other_blocks(bitmap_block);
        assert(block_index != bitmap_block) by {
            if block_index == bitmap_block {
                assert(self.is_table_block_of(group, block_index));
            }
        }
        assert(self.blocks_kept_but(after, group, block_index)) by {
            assert forall|kept: int|
                0 <= kept < self.block_count() && !self.is_copy_block(kept) && kept != bitmap_block
                    && kept != block_index implies #[trigger] after.block(kept) == self.block(
                kept,
            ) by {
                counted.lemma_copies_keep_other_blocks(kept);
            }
        }
        if !self.is_copy_block(block_index) {
            counted.lemma_copies_keep_other_blocks(block_index);
        }
        assert(after.block_bitmap(group) == changed);
        assert(self.marks_kept_but(after, block_index) && after.block_marked(block_index)
            == value) by {
            assert forall|kept: int|
                self.block_in_groups(kept) && kept != block_index implies #[trigger] after.block_marked(
                kept,
            ) == self.block_marked(kept) by {
                self.lemma_marks_kept(after, group, index, value, kept);
            }
        }
        assert(after.consistent()) by {
            assert forall|x: int|
                after.block_in_groups(x) && #[trigger] after.is_metadata_block(
                    x,
                ) implies after.block_marked(x) by {
                assert(self.is_metadata_block(x));
                assert(self.block_marked(x));
                assert(after.block_marked(x) == self.block_marked(x));
            }
            assert(after.constants() == self.constants());
            self.lemma_group_range(group);
            assert(bitmap.len() == self.block_size());
            lemma_clear_bit_count_with_bit(bitmap, self.group_len(group), index, value);
            assert forall|g: int| 0 <= g < after.group_count() implies #[trigger] after.blocks_counted(
                g,
            ) by {
                assert(self.blocks_counted(g));
                if g != group {
                    self.lemma_table_block_kept(after, group, block_index, g);
                }
            }
            assert forall|g: int| 0 <= g < after.group_count() implies #[trigger] after.inodes_counted(
                g,
            ) by {
                assert(self.inodes_counted(g));
                self.lemma_table_block_kept(after, group, block_index, g);
            }
        }
    }

    /// The bitmaps of a group are kept where no block has changed but blocks
    /// of copies, the block bitmap of another group, and a block that holds no
    /// metadata.
    proof fn lemma_table_block_kept(self, after: Volume, group: int, block_index: int, kept: int)
        requires
            self.wf(),
            self.tables_apart(),
            self.same_places(after),
            0 <= group < self.group_count(),
            0 <= kept < self.group_count(),
            !self.is_metadata_block(block_index),
            self.blocks_kept_but(after, group, block_index),
        ensures
            after.inode_bitmap(kept) == self.inode_bitmap(kept),
            kept != group ==> after.block_bitmap(kept) == self.block_bitmap(kept),
            after.descriptors[kept].inode_bitmap_block_index
                == self.descriptors[kept].inode_bitmap_block_index,
    {
        self.lemma_same_places(after);
        assert(self.descriptor_in_range(kept));
        assert(self.tables_apart_of(group, kept));
        assert(self.tables_apart_of(kept, group));
        let inode_bitmap = self.descriptors[kept].inode_bitmap_block_index as int;
        let block_bitmap = self.descriptors[kept].block_bitmap_block_index as int;
        assert(self.is_table_block_of(kept, inode_bitmap));
        assert(self.is_table_block_of(kept, block_bitmap));
        assert(after.descriptors[kept].inode_bitmap_block_index == inode_bitmap);
        assert(after.block(inode_bitmap) == self.block(inode_bitmap));
        if kept != group {
            assert(after.block(block_bitmap) == self.block(block_bitmap));
        }
    }

    /// The mark of a block other than the one whose bit was changed is kept.
    proof fn lemma_marks_kept(
        self,
        after: Volume,
        group: int,
        index: int,
        value: bool,
        kept: int,
    )
        requires
            self.consistent(),
            self.same_places(after),
            0 <= group < self.group_count(),
            0 <= index < self.group_len(group),
            self.block_in_groups(kept),
            kept != self.group_start(group) + index,
            !self.is_metadata_block(self.group_start(group) + index),
            after.block(self.descriptors[group].block_bitmap_block_index as int) == with_bit(
                self.block_bitmap(group),
                index,
                value,
            ),
            forall|other: int|
                0 <= other < self.block_count() && !self.is_copy_block(other) && other
                    != self.descriptors[group].block_bitmap_block_index && other
                    != self.group_start(group) + index ==> #[trigger] after.block(other)
                    == self.block(other),
        ensures
            after.block_marked(kept) == self.block_marked(kept),
    {
        self.lemma_same_places(after);
        self.lemma_group_of_block(kept);
        self.lemma_block_of_group(group, index);
        lemma_block_size_bounds(self.superblock);
        let block_index = self.group_start(group) + index;
        let kept_group = self.group_of_block(kept);
        let kept_index = kept - self.group_start(kept_group);
        self.lemma_group_range(kept_group);
        assert(self.descriptor_in_range(kept_group));
        assert(self.descriptor_in_range(group));
        let kept_bitmap_block = self.descriptors[kept_group].block_bitmap_block_index as int;
        assert(after.descriptors[kept_group].block_bitmap_block_index == kept_bitmap_block);
        self.lemma_block_in_disk(kept_bitmap_block);
        self.lemma_block_in_disk(self.descriptors[group].block_bitmap_block_index as int);
        if kept_group == group {
            lemma_with_bit(self.block_bitmap(group), index, value, kept_index);
        } else {
            assert(self.tables_apart_of(kept_group, group));
            assert(self.is_table_block_of(kept_group, kept_bitmap_block));
            assert(!self.is_copy_block(kept_bitmap_block));
            assert(kept_bitmap_block != block_index) by {
                if kept_bitmap_block == block_index {
                    assert(self.is_table_block_of(kept_group, block_index));
                }
            }
            assert(after.block(kept_bitmap_block) == self.block(kept_bitmap_block));
        }
    }

    /// The blocks that hold inodes are kept from a volume to itself.
    pub proof fn lemma_inode_blocks_kept_at_rest(self)
        ensures
            self.inode_blocks_kept(self),
    {
        reveal(Volume::inode_blocks_kept);
    }

    /// The blocks that hold inodes are kept from the first volume to the
    /// third where they are kept from the first to the second, and from the
    /// second to the third.
    pub proof fn lemma_inode_blocks_kept_through(self, middle: Volume, after: Volume)
        requires
            self.wf(),
            self.same_places(middle),
            self.inode_blocks_kept(middle),
            middle.inode_blocks_kept(after),
        ensures
            self.inode_blocks_kept(after),
    {
        reveal(Volume::inode_blocks_kept);
        self.lemma_same_places(middle);
        assert forall|group: int, block_index: int| #[trigger]
            self.is_inode_block_of(group, block_index) implies after.block(block_index)
            == self.block(block_index) by {
            assert(middle.descriptors[group].inode_bitmap_block_index
                == self.descriptors[group].inode_bitmap_block_index);
            assert(middle.is_inode_block_of(group, block_index));
        }
    }

    /// The blocks that hold inodes are kept where no block has changed but
    /// blocks of copies, a block bitmap, and a block that holds no metadata.
    pub proof fn lemma_inode_blocks_kept_by_step(self, after: Volume, group: int, block_index: int)
        requires
            self.wf(),
            self.tables_apart(),
            0 <= group < self.group_count(),
            !self.is_metadata_block(block_index),
            self.blocks_kept_but(after, group, block_index),
        ensures
            self.inode_blocks_kept(after),
    {
        reveal(Volume::inode_blocks_kept);
        assert forall|holder: int, kept: int| #[trigger]
            self.is_inode_block_of(holder, kept) implies after.block(kept) == self.block(kept) by {
            assert(self.descriptor_in_range(holder));
            assert(self.is_table_block_of(holder, kept));
            assert(self.tables_apart_of(group, holder));
            assert(self.tables_apart_of(holder, group));
            if self.descriptors[holder].inode_bitmap_block_index != kept {
                assert(self.is_inode_table_block_of(holder, kept));
            }
        }
    }

    /// Writing a block that holds no metadata changes that block alone, and
    /// no mark; the volume stays consistent, and the blocks that hold inodes
    /// are what they were.
    pub proof fn lemma_data_write_effect(self, block_index: int, data: Seq<u8>)
        requires
            self.consistent(),
            0 <= block_index < self.block_count(),
            !self.is_metadata_block(block_index),
            data.len() == self.block_size(),
        ensures
            self.with_block(block_index, data).consistent(),
            self.same_places(self.with_block(block_index, data)),
            self.with_block(block_index, data).superblock == self.superblock,
            self.with_block(block_index, data).descriptors == self.descriptors,
            self.with_block(block_index, data).block(block_index) == data,
            forall|kept: int|
                0 <= kept < self.block_count() && kept != block_index ==> #[trigger] self.with_block(
                    block_index,
                    data,
                ).block(kept) == self.block(kept),
            forall|kept: int|
                self.block_in_groups(kept) ==> #[trigger] self.with_block(
                    block_index,
                    data,
                ).block_marked(kept) == self.block_marked(kept),
            self.inode_blocks_kept(self.with_block(block_index, data)),
    {
        let after = self.with_block(block_index, data);
        self.lemma_with_block_read_back(block_index, data);
        assert(self.inode_blocks_kept(after)) by {
            reveal(Volume::inode_blocks_kept);
            assert forall|holder: int, kept: int| #[trigger]
                self.is_inode_block_of(holder, kept) implies after.block(kept) == self.block(
                kept,
            ) by {
                assert(self.descriptor_in_range(holder));
                assert(self.is_table_block_of(holder, kept));
            }
        }
        self.lemma_with_bytes_wf(block_index * self.block_size(), data);
        self.lemma_same_places(after);
        assert forall|kept: int| self.block_in_groups(kept) implies #[trigger] after.block_marked(
            kept,
        ) == self.block_marked(kept) by {
            self.lemma_group_of_block(kept);
            let group = self.group_of_block(kept);
            assert(self.descriptor_in_range(group));
            let bitmap_block = self.descriptors[group].block_bitmap_block_index as int;
            if bitmap_block == block_index {
                assert(self.is_table_block_of(group, block_index));
            }
        }
        assert forall|x: int|
            after.block_in_groups(x) && #[trigger] after.is_metadata_block(
                x,
            ) implies after.block_marked(x) by {
            assert(self.is_metadata_block(x));
            assert(after.block_marked(x) == self.block_marked(x));
        }
        assert forall|g: int| 0 <= g < after.group_count() implies #[trigger] after.blocks_counted(
            g,
        ) by {
            assert(self.blocks_counted(g));
            assert(self.descriptor_in_range(g));
            assert(self.is_table_block_of(g, self.descriptors[g].block_bitmap_block_index as int));
        }
        assert forall|g: int| 0 <= g < after.group_count() implies #[trigger] after.inodes_counted(
            g,
        ) by {
            assert(self.inodes_counted(g));
            assert(self.descriptor_in_range(g));
            assert(self.is_table_block_of(g, self.descriptors[g].inode_bitmap_block_index as int));
        }
    }

    /// What taking a block does to a consistent volume: the volume stays
    /// consistent; the block was not marked and is; it holds no metadata; no
    /// block changes but blocks of copies and the bitmap of its group, and no
    /// other mark changes.
    pub proof fn lemma_allocate_block_effect(self)
        requires
            self.consistent(),
            self.allocate_block().1 is Ok,
        ensures
            ({
                let after = self.allocate_block().0;
                let block_index = self.allocate_block().1->Ok_0 as int;
                &&& after.consistent()
                &&& self.same_places(after)
                &&& self.block_in_groups(block_index)
                &&& !self.is_metadata_block(block_index)
                &&& !self.block_marked(block_index)
                &&& after.block_marked(block_index)
                &&& self.blocks_kept_but(after, self.group_of_block(block_index), block_index)
                &&& self.marks_kept_but(after, block_index)
                &&& self.inode_blocks_kept(after)
            }),
    {
        let group = self.first_group_with_free_blocks()->Some_0;
        assert(self.is_first_group_with_free_blocks(group));
        let bitmap = self.block_bitmap(group);
        let index = first_clear_bit(bitmap, self.group_len(group))->Some_0;
        assert(is_first_clear_bit(bitmap, self.group_len(group), index));
        let block_index = self.group_start(group) + index;
        self.lemma_block_of_group(group, index);
        assert(self.descriptor_in_range(group));
        assert(!self.block_marked(block_index));
        self.lemma_bitmap_step(group, -1, index, true);
        let taken = self.allocate_block().0;
        assert(block_index == self.allocate_block().1->Ok_0);
        self.lemma_inode_blocks_kept_by_step(taken, group, block_index);
    }

    /// What taking a block does to a consistent volume: the volume stays
    /// consistent; the block was not marked and is; it holds no metadata; it
    /// holds zeros; no other block changes but blocks of copies and the bitmap
    /// of its group, and no other mark changes.
    pub proof fn lemma_allocate_zeroed_block_effect(self)
        requires
            self.consistent(),
            self.allocate_zeroed_block().1 is Ok,
        ensures
            ({
                let after = self.allocate_zeroed_block().0;
                let block_index = self.allocate_zeroed_block().1->Ok_0 as int;
                &&& after.consistent()
                &&& self.same_places(after)
                &&& self.block_in_groups(block_index)
                &&& !self.is_metadata_block(block_index)
                &&& !self.block_marked(block_index)
                &&& after.block_marked(block_index)
                &&& after.block(block_index) == zero_bytes(self.block_size() as nat)
                &&& self.blocks_kept_but(after, self.group_of_block(block_index), block_index)
                &&& self.marks_kept_but(after, block_index)
                &&& self.inode_blocks_kept(after)
            }),
    {
        let group = self.first_group_with_free_blocks()->Some_0;
        assert(self.is_first_group_with_free_blocks(group));
        let bitmap = self.block_bitmap(group);
        let index = first_clear_bit(bitmap, self.group_len(group))->Some_0;
        assert(is_first_clear_bit(bitmap, self.group_len(group), index));
        let block_index = self.group_start(group) + index;
        self.lemma_block_of_group(group, index);
        assert(self.descriptor_in_range(group));
        assert(!self.block_marked(block_index));
        self.lemma_bitmap_step(group, -1, index, true);
        let taken = self.allocate_block().0;
        assert(block_index == self.allocate_block().1->Ok_0);
        self.lemma_same_places(taken);
        lemma_block_size_bounds(self.superblock);
        let zeros = zero_bytes(self.block_size() as nat);
        taken.lemma_data_write_effect(block_index, zeros);
        let after = taken.with_block(block_index, zeros);
        assert(after == self.allocate_zeroed_block().0);
        taken.lemma_same_places(after);
        assert(self.same_places(after));
        self.lemma_inode_blocks_kept_by_step(taken, group, block_index);
        self.lemma_inode_blocks_kept_through(taken, after);
    }

    /// What giving back a block that holds no metadata does to a consistent
    /// volume: the volume stays consistent; the block was marked and is not;
    /// no block changes but blocks of copies and the bitmap of its group, and
    /// no other mark changes.
    pub proof fn lemma_free_block_effect(self, block_index: int)
        requires
            self.consistent(),
            !self.is_metadata_block(block_index),
            self.free_block(block_index).1 is Ok,
        ensures
            ({
                let after = self.free_block(block_index).0;
                &&& after.consistent()
                &&& self.same_places(after)
                &&& self.block_in_groups(block_index)
                &&& self.block_marked(block_index)
                &&& !after.block_marked(block_index)
                &&& after.block(block_index) == self.block(block_index)
                &&& self.blocks_kept_but(after, self.group_of_block(block_index), block_index)
                &&& self.marks_kept_but(after, block_index)
                &&& self.inode_blocks_kept(after)
            }),
    {
        let group = self.group_of_block(block_index);
        self.lemma_group_of_block(block_index);
        self.lemma_bitmap_step(group, 1, block_index - self.group_start(group), false);
        self.lemma_inode_blocks_kept_by_step(self.free_block(block_index).0, group, block_index);
        assert(!self.is_copy_block(block_index)) by {
            if self.is_copy_block(block_index) {
                let g = choose|g: int| self.is_copy_block_of(g, block_index);
                assert(self.is_copy_block_of(g, block_index));
            }
        }
    }

    /// Storing an inode changes the block of the inode table that holds its
    /// record, and nothing else: no other block, and no mark; the volume
    /// stays consistent.
    pub proof fn lemma_with_inode_effect(self, inode_index: int, inode: crate::ext2::inode::Inode)
        requires
            self.consistent(),
            self.inode_in_range(inode_index),
        ensures
            self.with_inode(inode_index, inode).consistent(),
            self.same_places(self.with_inode(inode_index, inode)),
            self.with_inode(inode_index, inode).superblock == self.superblock,
            self.with_inode(inode_index, inode).descriptors == self.descriptors,
            self.is_inode_table_block_of(
                self.group_of_inode(inode_index),
                self.inode_start(inode_index) / self.block_size(),
            ),
            forall|kept: int|
                0 <= kept < self.block_count() && kept != self.inode_start(inode_index)
                    / self.block_size() ==> #[trigger] self.with_inode(inode_index, inode).block(
                    kept,
                ) == self.block(kept),
            forall|kept: int|
                self.block_in_groups(kept) ==> #[trigger] self.with_inode(
                    inode_index,
                    inode,
                ).block_marked(kept) == self.block_marked(kept),
    {
        let after = self.with_inode(inode_index, inode);
        let start = self.inode_start(inode_index);
        let bs = self.block_size();
        let group = self.group_of_inode(inode_index);
        let table_block = start / bs;
        let data = inode.encoded();
        lemma_block_size_bounds(self.superblock);
        self.lemma_inode_place(inode_index);
        inode.lemma_written_over_is_encoded(
            crate::bytes::zero_bytes(crate::ext2::inode::INODE_PRACTICAL_SIZE as nat),
        );
        self.lemma_with_bytes_wf(start, data);
        self.lemma_same_places(after);
        assert(self.descriptor_in_range(group));
        // the record lies in a block of the inode table of its group
        assert(self.is_inode_table_block_of(group, table_block));
        assert(self.is_table_block_of(group, table_block));
        assert forall|kept: int|
            0 <= kept < self.block_count() && kept != table_block implies #[trigger] after.block(
            kept,
        ) == self.block(kept) by {
            self.lemma_block_in_disk(kept);
            assert forall|byte: int| kept * bs <= byte < kept * bs + bs implies after.disk[byte]
                == self.disk[byte] by {
                if start <= byte < start + data.len() {
                    crate::ext2::copies::lemma_range_in_block(bs, start, data.len() as int, byte);
                    crate::ext2::data::lemma_block_of_byte(bs, kept, byte);
                }
            }
            assert(after.block(kept) =~= self.block(kept));
        }
        assert forall|kept: int| self.block_in_groups(kept) implies #[trigger] after.block_marked(
            kept,
        ) == self.block_marked(kept) by {
            self.lemma_group_of_block(kept);
            let kept_group = self.group_of_block(kept);
            assert(self.descriptor_in_range(kept_group));
            assert(self.tables_apart_of(kept_group, group));
        }
        assert forall|x: int|
            after.block_in_groups(x) && #[trigger] after.is_metadata_block(
                x,
            ) implies after.block_marked(x) by {
            assert(self.is_metadata_block(x));
            assert(after.block_marked(x) == self.block_marked(x));
        }
        assert forall|g: int| 0 <= g < after.group_count() implies #[trigger] after.blocks_counted(
            g,
        ) by {
            assert(self.blocks_counted(g));
            assert(self.descriptor_in_range(g));
            assert(self.tables_apart_of(g, group));
        }
        assert forall|g: int| 0 <= g < after.group_count() implies #[trigger] after.inodes_counted(
            g,
        ) by {
            assert(self.inodes_counted(g));
            assert(self.descriptor_in_range(g));
            assert(self.tables_apart_of(g, group));
        }
    }
}

} // verus!
