//! What storing the copies of the superblock and of the descriptor table
//! does to a volume: which bytes change, and what is read back.

use crate::bytes::splice;
use crate::ext2::descriptor::{BlockGroupDescriptor, DESCRIPTOR_FIELDS_SIZE, DESCRIPTOR_SIZE};
use crate::ext2::superblock::{Superblock, SUPERBLOCK_FIELDS_SIZE};
use crate::ext2::volume::{lemma_block_size_bounds, lemma_record_place, Volume};
use vstd::prelude::*;

verus! {

/// A byte of a range that lies inside one block lies in that block.
pub proof fn lemma_range_in_block(block_size: int, start: int, len: int, byte: int)
    requires
        block_size > 0,
        0 <= start,
        start % block_size + len <= block_size,
        start <= byte < start + len,
    ensures
        byte / block_size == start / block_size,
{
    let block = start / block_size;
    vstd::arithmetic::div_mod::lemma_fundamental_div_mod(start, block_size);
    assert(block_size * block == block * block_size) by (nonlinear_arith);
    vstd::arithmetic::div_mod::lemma_fundamental_div_mod_converse(
        byte,
        block_size,
        block,
        byte - block * block_size,
    );
}

impl Volume {
    /// Block `block_index` is one of those in which group `group` stores its
    /// copies: the first block of the group, and the blocks of the table after
    /// it.
    pub open spec fn is_copy_block_of(self, group: int, block_index: int) -> bool {
        &&& 0 <= group < self.group_count()
        &&& self.group_has_copies(group)
        &&& self.group_start(group) <= block_index <= self.group_start(group)
            + self.table_block_count()
    }

    /// Block `block_index` is one of those in which some group stores its
    /// copies.
    pub open spec fn is_copy_block(self, block_index: int) -> bool {
        exists|group: int| self.is_copy_block_of(group, block_index)
    }

    /// The bytes of the device where group `group` stores descriptor `index`.
    pub open spec fn descriptor_copy(self, group: int, index: int) -> Seq<u8> {
        self.disk.subrange(
            self.descriptor_copy_start(group, index),
            self.descriptor_copy_start(group, index) + DESCRIPTOR_FIELDS_SIZE,
        )
    }

    /// The bytes of the device where group `group` stores the fields of the
    /// superblock.
    pub open spec fn superblock_copy_bytes(self, group: int) -> Seq<u8> {
        self.disk.subrange(
            self.superblock_copy_start(group),
            self.superblock_copy_start(group) + SUPERBLOCK_FIELDS_SIZE,
        )
    }

    /// Two volumes have the same layout: what the layout is computed from is
    /// the same in both.
    pub open spec fn same_layout(self, other: Volume) -> bool {
        &&& other.superblock == self.superblock
        &&& other.descriptors == self.descriptors
        &&& other.disk.len() == self.disk.len()
    }

    /// The descriptors that a group stores lie in the blocks of its copies,
    /// and those of two indices do not overlap.
    pub proof fn lemma_descriptor_copy_block(self, group: int, index: int)
        requires
            self.wf(),
            0 <= group < self.group_count(),
            self.group_has_copies(group),
            0 <= index < self.group_count(),
        ensures
            0 <= self.descriptor_copy_start(group, index),
            self.descriptor_copy_start(group, index) + DESCRIPTOR_FIELDS_SIZE <= self.disk.len(),
            self.descriptor_copy_start(group, index) % self.block_size() + DESCRIPTOR_FIELDS_SIZE
                <= self.block_size(),
            self.group_start(group) + 1 <= self.descriptor_copy_start(group, index)
                / self.block_size() <= self.group_start(group) + self.table_block_count(),
            self.is_copy_block_of(
                group,
                self.descriptor_copy_start(group, index) / self.block_size(),
            ),
    {
        assert(self.copies_fit(group));
        self.lemma_descriptor_copy_place(group, index);
        lemma_block_size_bounds(self.superblock);
        self.lemma_group_range(group);
        let bs = self.block_size();
        let first = self.group_start(group) + 1;
        lemma_record_place(first, bs, 32, index, self.group_count(), self.table_block_count());
        let block = self.descriptor_copy_start(group, index) / bs;
        self.lemma_block_in_disk(block);
        vstd::arithmetic::div_mod::lemma_fundamental_div_mod(
            self.descriptor_copy_start(group, index),
            bs,
        );
        assert(bs * block == block * bs) by (nonlinear_arith);
    }

    /// The copy of the superblock that a group stores lies in the first block
    /// of the group.
    pub proof fn lemma_superblock_copy_block(self, group: int)
        requires
            self.wf(),
            0 <= group < self.group_count(),
            self.group_has_copies(group),
        ensures
            0 <= self.superblock_copy_start(group),
            self.superblock_copy_start(group) + SUPERBLOCK_FIELDS_SIZE <= self.disk.len(),
            self.superblock_copy_start(group) % self.block_size() + SUPERBLOCK_FIELDS_SIZE
                <= self.block_size(),
            self.superblock_copy_start(group) / self.block_size() == self.group_start(group),
            self.is_copy_block_of(group, self.group_start(group)),
    {
        self.lemma_superblock_copy_place(group);
        lemma_block_size_bounds(self.superblock);
        self.lemma_group_range(group);
        let bs = self.block_size();
        let start = self.group_start(group);
        self.lemma_block_in_disk(start);
        if group == 0 {
            if bs > 1024 {
                vstd::arithmetic::div_mod::lemma_small_mod(1024, bs as nat);
                vstd::arithmetic::div_mod::lemma_basic_div(1024, bs);
            }
        } else {
            vstd::arithmetic::div_mod::lemma_div_multiples_vanish(start, bs);
            vstd::arithmetic::div_mod::lemma_mod_multiples_basic(start, bs);
            assert(bs * start == start * bs) by (nonlinear_arith);
        }
        assert(self.table_block_count() >= 0) by {
            vstd::arithmetic::div_mod::lemma_div_pos_is_pos(
                self.group_count() * DESCRIPTOR_SIZE + bs - 1,
                bs,
            );
        }
        let at = self.superblock_copy_start(group);
        vstd::arithmetic::div_mod::lemma_fundamental_div_mod(at, bs);
        assert(bs * start == start * bs) by (nonlinear_arith);
        assert(at == start * bs + at % bs);
        assert(at + SUPERBLOCK_FIELDS_SIZE <= start * bs + bs);
    }

    /// The blocks in which two groups store their copies are not the same.
    pub proof fn lemma_copy_blocks_apart(self, group: int, other: int, block_index: int)
        requires
            self.wf(),
            self.is_copy_block_of(group, block_index),
            self.is_copy_block_of(other, block_index),
        ensures
            group == other,
    {
        assert(self.copies_fit(group));
        assert(self.copies_fit(other));
        self.lemma_group_range(group);
        self.lemma_group_range(other);
        let per_group = self.superblock.block_count_per_block_group as int;
        if group < other {
            assert(self.group_start(other) >= self.group_start(group) + per_group)
                by (nonlinear_arith)
                requires
                    group + 1 <= other,
                    per_group >= 1,
                    self.group_start(other) == self.superblock.first_data_block_block_index + other
                        * per_group,
                    self.group_start(group) == self.superblock.first_data_block_block_index + group
                        * per_group,
            ;
        } else if other < group {
            assert(self.group_start(group) >= self.group_start(other) + per_group)
                by (nonlinear_arith)
                requires
                    other + 1 <= group,
                    per_group >= 1,
                    self.group_start(other) == self.superblock.first_data_block_block_index + other
                        * per_group,
                    self.group_start(group) == self.superblock.first_data_block_block_index + group
                        * per_group,
            ;
        }
    }

    /// A volume with the layout of a sound one is sound, and what is computed
    /// from the layout is the same in both.
    pub proof fn lemma_same_layout(self, other: Volume)
        requires
            self.wf(),
            self.same_layout(other),
        ensures
            other.wf(),
            other.block_size() == self.block_size(),
            other.block_count() == self.block_count(),
            other.group_count() == self.group_count(),
            other.table_block_count() == self.table_block_count(),
            forall|group: int| other.group_start(group) == self.group_start(group),
            forall|group: int| other.group_has_copies(group) == self.group_has_copies(group),
            forall|group: int|
                other.superblock_copy_start(group) == self.superblock_copy_start(group),
            forall|group: int, index: int|
                other.descriptor_copy_start(group, index) == self.descriptor_copy_start(
                    group,
                    index,
                ),
            forall|group: int, block_index: int|
                other.is_copy_block_of(group, block_index) == self.is_copy_block_of(
                    group,
                    block_index,
                ),
    {
        assert forall|group: int| 0 <= group < other.group_count() implies #[trigger]
            other.descriptor_in_range(group) by {
            assert(self.descriptor_in_range(group));
        }
        assert forall|group: int| 0 <= group < other.group_count() implies #[trigger]
            other.copies_fit(group) by {
            assert(self.copies_fit(group));
        }
    }

    /// Byte `byte` of the device is one of those where group `group` stores
    /// descriptor `index`.
    pub open spec fn in_descriptor_copy(self, group: int, index: int, byte: int) -> bool {
        self.descriptor_copy_start(group, index) <= byte < self.descriptor_copy_start(group, index)
            + DESCRIPTOR_FIELDS_SIZE
    }

    /// Byte `byte` of the device is one of those where group `group` stores
    /// one of the first `count` descriptors.
    pub open spec fn in_descriptor_copies(self, group: int, count: int, byte: int) -> bool {
        exists|index: int| 0 <= index < count && #[trigger] self.in_descriptor_copy(group, index, byte)
    }

    /// Storing the first `count` descriptors in group `group` keeps the
    /// layout, changes no byte outside the places of these descriptors, and
    /// leaves in these places the encodings of the descriptors.
    pub proof fn lemma_with_descriptor_copies(self, group: int, count: int)
        requires
            self.wf(),
            0 <= group < self.group_count(),
            self.group_has_copies(group),
            0 <= count <= self.group_count(),
        ensures
            self.same_layout(self.with_descriptor_copies(group, count)),
            forall|byte: int|
                0 <= byte < self.disk.len() && !self.in_descriptor_copies(group, count, byte)
                    ==> #[trigger] self.with_descriptor_copies(group, count).disk[byte]
                    == self.disk[byte],
            forall|index: int|
                0 <= index < count ==> #[trigger] self.with_descriptor_copies(
                    group,
                    count,
                ).descriptor_copy(group, index) == self.descriptors[index].encoded(),
        decreases count,
    {
        if count > 0 {
            self.lemma_with_descriptor_copies(group, count - 1);
            let before = self.with_descriptor_copies(group, count - 1);
            let after = self.with_descriptor_copies(group, count);
            let start = self.descriptor_copy_start(group, count - 1);
            let data = self.descriptors[count - 1].encoded();
            self.lemma_descriptor_copy_block(group, count - 1);
            assert(self.descriptor_in_range(count - 1));
            self.descriptors[count - 1].lemma_written_over_frame(
                crate::bytes::zero_bytes(DESCRIPTOR_FIELDS_SIZE as nat),
            );
            assert(after.disk == splice(before.disk, start, data));
            assert forall|byte: int|
                0 <= byte < self.disk.len() && !self.in_descriptor_copies(
                    group,
                    count,
                    byte,
                ) implies #[trigger] after.disk[byte] == self.disk[byte] by {
                assert(!self.in_descriptor_copy(group, count - 1, byte));
                assert(!self.in_descriptor_copies(group, count - 1, byte)) by {
                    if self.in_descriptor_copies(group, count - 1, byte) {
                        let index = choose|index: int|
                            0 <= index < count - 1 && #[trigger] self.in_descriptor_copy(
                                group,
                                index,
                                byte,
                            );
                        assert(self.in_descriptor_copy(group, index, byte));
                    }
                }
                assert(before.disk[byte] == self.disk[byte]);
            }
            assert forall|index: int| 0 <= index < count implies #[trigger] after.descriptor_copy(
                group,
                index,
            ) == self.descriptors[index].encoded() by {
                let at = self.descriptor_copy_start(group, index);
                self.lemma_descriptor_copy_block(group, index);
                assert(after.descriptor_copy_start(group, index) == at);
                if index == count - 1 {
                    assert(after.descriptor_copy(group, index) =~= data);
                } else {
                    assert(before.descriptor_copy(group, index)
                        == self.descriptors[index].encoded());
                    assert(before.descriptor_copy_start(group, index) == at);
                    assert(after.descriptor_copy(group, index) =~= before.descriptor_copy(
                        group,
                        index,
                    ));
                }
            }
        }
    }

    /// A group holds what it stored: the fields of the superblock with the
    /// index of the group, and every descriptor.
    pub open spec fn group_holds_copies(self, source: Volume, group: int) -> bool {
        &&& self.superblock_copy_bytes(group) == source.superblock_copy(group).encoded()
        &&& forall|index: int|
            0 <= index < source.group_count() ==> #[trigger] self.descriptor_copy(group, index)
                == source.descriptors[index].encoded()
    }

    /// Storing the copies of one group keeps the layout, changes no byte
    /// outside the blocks of these copies, and leaves the copies in their
    /// places.
    pub proof fn lemma_with_group_copies(self, group: int)
        requires
            self.wf(),
            0 <= group < self.group_count(),
        ensures
            self.same_layout(self.with_group_copies(group)),
            forall|byte: int|
                0 <= byte < self.disk.len() && !self.is_copy_block_of(
                    group,
                    byte / self.block_size(),
                ) ==> #[trigger] self.with_group_copies(group).disk[byte] == self.disk[byte],
            self.group_has_copies(group) ==> self.with_group_copies(group).group_holds_copies(
                self,
                group,
            ),
    {
        if self.group_has_copies(group) {
            let bs = self.block_size();
            let start = self.superblock_copy_start(group);
            let data = self.superblock_copy(group).encoded();
            self.superblock_copy(group).lemma_written_over_is_encoded(
                crate::bytes::zero_bytes(SUPERBLOCK_FIELDS_SIZE as nat),
            );
            self.lemma_superblock_copy_block(group);
            lemma_block_size_bounds(self.superblock);
            let first = self.with_bytes(start, data);
            self.lemma_same_layout(first);
            first.lemma_with_descriptor_copies(group, first.group_count());
            let after = self.with_group_copies(group);
            assert(after == first.with_descriptor_copies(group, first.group_count()));
            // the descriptors are stored in blocks of the table
            assert forall|byte: int|
                0 <= byte < self.disk.len() && first.in_descriptor_copies(
                    group,
                    first.group_count(),
                    byte,
                ) implies self.group_start(group) + 1 <= byte / bs <= self.group_start(group)
                + self.table_block_count() by {
                let index = choose|index: int|
                    0 <= index < first.group_count() && #[trigger] first.in_descriptor_copy(
                        group,
                        index,
                        byte,
                    );
                self.lemma_descriptor_copy_block(group, index);
                lemma_range_in_block(
                    bs,
                    self.descriptor_copy_start(group, index),
                    DESCRIPTOR_FIELDS_SIZE as int,
                    byte,
                );
            }
            assert forall|byte: int|
                0 <= byte < self.disk.len() && !self.is_copy_block_of(
                    group,
                    byte / bs,
                ) implies #[trigger] after.disk[byte] == self.disk[byte] by {
                if start <= byte < start + SUPERBLOCK_FIELDS_SIZE {
                    lemma_range_in_block(bs, start, SUPERBLOCK_FIELDS_SIZE as int, byte);
                }
                assert(first.disk[byte] == self.disk[byte]);
                assert(!first.in_descriptor_copies(group, first.group_count(), byte));
            }
            assert(after.superblock_copy_bytes(group) =~= data) by {
                assert forall|byte: int|
                    start <= byte < start + SUPERBLOCK_FIELDS_SIZE implies #[trigger] after.disk[byte]
                    == data[byte - start] by {
                    lemma_range_in_block(bs, start, SUPERBLOCK_FIELDS_SIZE as int, byte);
                    assert(!first.in_descriptor_copies(group, first.group_count(), byte));
                    assert(first.disk[byte] == data[byte - start]);
                }
            }
        }
    }

    /// Storing the copies of the first `count` groups keeps the layout,
    /// changes no byte outside the blocks of copies, and leaves the copies of
    /// each of these groups in their places.
    pub proof fn lemma_with_copies_upto(self, count: int)
        requires
            self.wf(),
            0 <= count <= self.group_count(),
        ensures
            self.same_layout(self.with_copies_upto(count)),
            forall|byte: int|
                0 <= byte < self.disk.len() && !self.is_copy_block(byte / self.block_size())
                    ==> #[trigger] self.with_copies_upto(count).disk[byte] == self.disk[byte],
            forall|group: int|
                0 <= group < count && self.group_has_copies(group) ==> #[trigger] self.with_copies_upto(
                    count,
                ).group_holds_copies(self, group),
        decreases count,
    {
        if count > 0 {
            self.lemma_with_copies_upto(count - 1);
            let before = self.with_copies_upto(count - 1);
            let after = self.with_copies_upto(count);
            let bs = self.block_size();
            self.lemma_same_layout(before);
            before.lemma_with_group_copies(count - 1);
            before.lemma_same_layout(after);
            lemma_block_size_bounds(self.superblock);
            assert forall|byte: int|
                0 <= byte < self.disk.len() && !self.is_copy_block(
                    byte / bs,
                ) implies #[trigger] after.disk[byte] == self.disk[byte] by {
                assert(!self.is_copy_block_of(count - 1, byte / bs));
                assert(before.disk[byte] == self.disk[byte]);
            }
            assert forall|group: int|
                0 <= group < count && self.group_has_copies(
                    group,
                ) implies #[trigger] after.group_holds_copies(self, group) by {
                if group < count - 1 {
                    assert(before.group_holds_copies(self, group));
                    self.lemma_superblock_copy_block(group);
                    let start = self.superblock_copy_start(group);
                    assert(after.superblock_copy_bytes(group) =~= before.superblock_copy_bytes(
                        group,
                    )) by {
                        assert forall|byte: int|
                            start <= byte < start
                                + SUPERBLOCK_FIELDS_SIZE implies #[trigger] after.disk[byte]
                            == before.disk[byte] by {
                            lemma_range_in_block(bs, start, SUPERBLOCK_FIELDS_SIZE as int, byte);
                            if self.is_copy_block_of(count - 1, self.group_start(group)) {
                                self.lemma_copy_blocks_apart(
                                    group,
                                    count - 1,
                                    self.group_start(group),
                                );
                            }
                        }
                    }
                    assert forall|index: int|
                        0 <= index < self.group_count() implies #[trigger] after.descriptor_copy(
                        group,
                        index,
                    ) == self.descriptors[index].encoded() by {
                        let at = self.descriptor_copy_start(group, index);
                        self.lemma_descriptor_copy_block(group, index);
                        assert(before.descriptor_copy(group, index)
                            == self.descriptors[index].encoded());
                        assert(after.descriptor_copy(group, index) =~= before.descriptor_copy(
                            group,
                            index,
                        )) by {
                            assert forall|byte: int|
                                at <= byte < at
                                    + DESCRIPTOR_FIELDS_SIZE implies #[trigger] after.disk[byte]
                                == before.disk[byte] by {
                                lemma_range_in_block(bs, at, DESCRIPTOR_FIELDS_SIZE as int, byte);
                                if self.is_copy_block_of(count - 1, at / bs) {
                                    self.lemma_copy_blocks_apart(group, count - 1, at / bs);
                                }
                            }
                        }
                    }
                } else {
                    assert(after.group_holds_copies(before, group));
                }
            }
        }
    }

    /// Once the copies are stored, each group that holds copies holds the
    /// superblock that is held in memory, with the index of the group, and the
    /// descriptors that are held in memory; and no block but those of the
    /// copies has changed.
    pub proof fn lemma_copies_are_read_back(self, group: int, index: int)
        requires
            self.wf(),
            0 <= group < self.group_count(),
            self.group_has_copies(group),
            0 <= index < self.group_count(),
        ensures
            Superblock::decode(self.with_copies().superblock_copy_bytes(group))
                == self.superblock_copy(group),
            BlockGroupDescriptor::decode(self.with_copies().descriptor_copy(group, index))
                == self.descriptors[index],
            self.with_copies().wf(),
            self.with_copies().superblock == self.superblock,
            self.with_copies().descriptors == self.descriptors,
    {
        self.lemma_with_copies_upto(self.group_count());
        let after = self.with_copies();
        self.lemma_same_layout(after);
        assert(after.group_holds_copies(self, group));
        let copy = self.superblock_copy(group);
        let zeros = crate::bytes::zero_bytes(SUPERBLOCK_FIELDS_SIZE as nat);
        copy.lemma_round_trip(zeros);
        assert(self.descriptor_in_range(index));
        self.descriptors[index].lemma_round_trip(
            crate::bytes::zero_bytes(DESCRIPTOR_FIELDS_SIZE as nat),
        );
    }

    /// The copies of the superblock in two groups are the same bytes, but for
    /// the two bytes that hold the index of the group.
    pub proof fn lemma_copies_differ_in_index_only(self, group: int, other: int, i: int)
        requires
            self.wf(),
            0 <= group < self.group_count(),
            self.group_has_copies(group),
            0 <= other < self.group_count(),
            self.group_has_copies(other),
            0 <= i < SUPERBLOCK_FIELDS_SIZE,
            !(90 <= i < 92),
        ensures
            self.with_copies().superblock_copy_bytes(group)[i]
                == self.with_copies().superblock_copy_bytes(other)[i],
    {
        self.lemma_with_copies_upto(self.group_count());
        let after = self.with_copies();
        assert(after.group_holds_copies(self, group));
        assert(after.group_holds_copies(self, other));
        self.superblock_copy(group).lemma_copies_differ_in_index_only(
            self.superblock_copy(other),
            i,
        );
    }

    /// Storing the copies changes no block but those of the copies.
    pub proof fn lemma_copies_keep_other_blocks(self, block_index: int)
        requires
            self.wf(),
            0 <= block_index < self.block_count(),
            !self.is_copy_block(block_index),
        ensures
            self.with_copies().block(block_index) == self.block(block_index),
    {
        self.lemma_with_copies_upto(self.group_count());
        let after = self.with_copies();
        self.lemma_same_layout(after);
        self.lemma_block_in_disk(block_index);
        lemma_block_size_bounds(self.superblock);
        let bs = self.block_size();
        assert(after.block(block_index) =~= self.block(block_index)) by {
            assert forall|byte: int|
                block_index * bs <= byte < block_index * bs + bs implies #[trigger] after.disk[byte]
                == self.disk[byte] by {
                crate::ext2::data::lemma_block_of_byte(bs, block_index, byte);
            }
        }
    }
}

} // verus!
