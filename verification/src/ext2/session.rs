//! The session on a mounted volume: block input and output, and what is
//! built on it.

use crate::bytes::{copy_into, splice, zero_bytes, zeroed};
use crate::ext2::bitmap::Bitmap;
use crate::ext2::descriptor::{BlockGroupDescriptor, DESCRIPTOR_FIELDS_SIZE, DESCRIPTOR_SIZE};
use crate::ext2::inode::{Inode, INODE_PRACTICAL_SIZE};
use crate::ext2::superblock::{
    Superblock, SUPERBLOCK_FIELDS_SIZE, SUPERBLOCK_SIZE, SUPERBLOCK_START,
};
use crate::ext2::volume::{lemma_block_size_bounds, Volume, MAX_BLOCK_COUNT, MAX_GROUP_COUNT};
use crate::fs::Error;
use crate::sector_storage::SectorStorage;
use core::ops::Range;
use vstd::prelude::*;

verus! {

/// A mounted ext2 volume: the device, and the superblock and descriptor table
/// read from it. Every change to the two is written to all their copies
/// before the operation that made it returns.
pub struct Session<SS: SectorStorage> {
    sector_storage: SS,
    superblock: Superblock,
    block_group_descriptors: Vec<BlockGroupDescriptor>,
}

/// Number of blocks that hold `count` records of `size` bytes each.
fn blocks_for(count: u64, size: u64, block_size: u64) -> (blocks: u64)
    requires
        count <= u32::MAX,
        size <= u16::MAX,
        1 <= block_size <= 0x80_0000,
    ensures
        blocks == (count * size + block_size - 1) / (block_size as int),
        blocks <= 0x1_0000_0000_0000,
{
    proof {
        vstd::arithmetic::div_mod::lemma_div_nonincreasing(
            count * size + block_size - 1,
            block_size as int,
        );
    }
    assert(count * size <= 0xffff_ffff * 0xffff) by (nonlinear_arith)
        requires
            count <= 0xffff_ffff,
            size <= 0xffff,
    ;
    (count * size + block_size - 1) / block_size
}

/// Whether every group that holds copies of the superblock and the table has
/// room for them.
fn all_copies_fit(
    superblock: Superblock,
    block_count: u64,
    group_count: u64,
    table_blocks: u64,
    Ghost(volume): Ghost<Volume>,
) -> (fit: bool)
    requires
        volume.layout_ok(),
        volume.superblock == superblock,
        group_count == volume.group_count(),
        block_count == volume.block_count(),
        table_blocks == volume.table_block_count(),
        table_blocks <= 0x1_0000_0000_0000,
    ensures
        fit == forall|g: int| 0 <= g < group_count ==> #[trigger] volume.copies_fit(g),
{
    let mut group: u64 = 0;
    while group < group_count
        invariant
            volume.layout_ok(),
            volume.superblock == superblock,
            group_count == volume.group_count(),
            block_count == volume.block_count(),
            table_blocks == volume.table_block_count(),
            table_blocks <= 0x1_0000_0000_0000,
            group <= group_count,
            forall|g: int| 0 <= g < group ==> #[trigger] volume.copies_fit(g),
        decreases group_count - group,
    {
        proof {
            volume.lemma_group_range(group as int);
            volume.lemma_superblock_copy_place(group as int);
        }
        if superblock.group_has_copies(group) {
            let start = superblock.first_data_block_block_index + group
                * superblock.block_count_per_block_group;
            let end = if superblock.block_count_per_block_group <= block_count - start {
                start + superblock.block_count_per_block_group
            } else {
                block_count
            };
            if end - start < 1 + table_blocks {
                assert(!volume.copies_fit(group as int));
                return false;
            }
        }
        group += 1;
    }
    true
}

/// Reads the descriptor table from the copy in group 0; `None` where a
/// descriptor names a bitmap or an inode table that is not on the device.
fn read_block_group_descriptors<SS: SectorStorage>(
    sector_storage: &SS,
    superblock: Superblock,
    block_count: u64,
    group_count: u64,
    Ghost(volume): Ghost<Volume>,
) -> (descriptors: Option<Vec<BlockGroupDescriptor>>)
    requires
        sector_storage.inv(),
        volume.layout_ok(),
        volume.superblock == superblock,
        volume.disk == sector_storage@,
        volume.descriptors.len() == group_count,
        group_count == volume.group_count(),
        block_count == volume.block_count(),
        group_count > 0 ==> volume.copies_fit(0),
        forall|index: int|
            0 <= index < group_count ==> #[trigger] volume.descriptors[index]
                == BlockGroupDescriptor::decode(
                volume.disk.subrange(
                    volume.descriptor_copy_start(0, index),
                    volume.descriptor_copy_start(0, index) + DESCRIPTOR_FIELDS_SIZE,
                ),
            ),
    ensures
        descriptors is Some <==> forall|g: int|
            0 <= g < group_count ==> #[trigger] volume.descriptor_in_range(g),
        descriptors matches Some(d) ==> d@ == volume.descriptors,
{
    proof {
        lemma_block_size_bounds(superblock);
    }
    let block_size = superblock.block_size();
    let inode_table_blocks = blocks_for(
        superblock.inode_count_per_block_group,
        superblock.inode_size,
        block_size,
    );
    let mut block_group_descriptors: Vec<BlockGroupDescriptor> = Vec::new();
    let mut index: u64 = 0;
    while index < group_count
        invariant
            sector_storage.inv(),
            volume.layout_ok(),
            volume.superblock == superblock,
            volume.disk == sector_storage@,
            volume.descriptors.len() == group_count,
            group_count == volume.group_count(),
            block_count == volume.block_count(),
            block_size == volume.block_size(),
            1024 <= block_size <= 0x80_0000,
            inode_table_blocks == volume.inode_table_block_count(),
            inode_table_blocks <= 0x1_0000_0000_0000,
            group_count > 0 ==> volume.copies_fit(0),
            forall|index: int|
                0 <= index < group_count ==> #[trigger] volume.descriptors[index]
                    == BlockGroupDescriptor::decode(
                    volume.disk.subrange(
                        volume.descriptor_copy_start(0, index),
                        volume.descriptor_copy_start(0, index) + DESCRIPTOR_FIELDS_SIZE,
                    ),
                ),
            index <= group_count,
            block_group_descriptors@ == volume.descriptors.subrange(0, index as int),
            forall|g: int| 0 <= g < index ==> #[trigger] volume.descriptor_in_range(g),
        decreases group_count - index,
    {
        proof {
            volume.lemma_group_range(0);
            volume.lemma_descriptor_copy_place(0, index as int);
            volume.lemma_descriptor_copy_place(0, 0);
        }
        let start = (superblock.first_data_block_block_index + 1) * block_size + index
            * DESCRIPTOR_SIZE;
        let block_index = start / block_size;
        let offset = (start % block_size) as usize;
        proof {
            volume.lemma_block_in_disk(block_index as int);
            vstd::arithmetic::div_mod::lemma_fundamental_div_mod(start as int, block_size as int);
            assert(block_size * block_index == block_index * block_size) by (nonlinear_arith);
        }
        let block_data = sector_storage.read_aligned(block_index * block_size, block_size);
        let descriptor = BlockGroupDescriptor::of_bytes(
            &block_data[offset..offset + DESCRIPTOR_FIELDS_SIZE],
        );
        proof {
            assert(block_data@.subrange(offset as int, offset + DESCRIPTOR_FIELDS_SIZE)
                =~= volume.disk.subrange(start as int, start + DESCRIPTOR_FIELDS_SIZE));
            assert(descriptor == volume.descriptors[index as int]);
        }
        if !(descriptor.block_bitmap_block_index < block_count
            && descriptor.inode_bitmap_block_index < block_count
            && descriptor.inode_table_first_block_index + inode_table_blocks <= block_count) {
            assert(!volume.descriptor_in_range(index as int));
            return None;
        }
        block_group_descriptors.push(descriptor);
        assert(block_group_descriptors@ =~= volume.descriptors.subrange(0, index + 1));
        index += 1;
    }
    assert(block_group_descriptors@ =~= volume.descriptors);
    Some(block_group_descriptors)
}

impl<SS: SectorStorage> Session<SS> {
    /// Mounts the volume that `sector_storage` holds. The superblock is read
    /// from its fixed place and the descriptor table from the blocks after it;
    /// a device that holds no sound volume is refused.
    pub fn new(sector_storage: SS) -> (session: Result<Session<SS>, Error>)
        requires
            sector_storage.inv(),
        ensures
            match session {
                Ok(session) => {
                    &&& Volume::mountable(sector_storage@)
                    &&& session.wf()
                    &&& session@ == Volume::read_from(sector_storage@)
                },
                Err(error) => error == Error::Corrupt && !Volume::mountable(sector_storage@),
            },
    {
        let ghost disk = sector_storage@;
        let ghost volume = Volume::read_from(disk);
        proof {
            reveal(Volume::read_from);
            reveal(Volume::mountable);
        }
        let len = sector_storage.len();
        if len < SUPERBLOCK_START + SUPERBLOCK_SIZE {
            return Err(Error::Corrupt);
        }
        let superblock_data = sector_storage.read_aligned(SUPERBLOCK_START, SUPERBLOCK_SIZE);
        if !Superblock::bytes_are_valid(superblock_data.as_slice()) {
            return Err(Error::Corrupt);
        }
        let superblock = Superblock::of_bytes(superblock_data.as_slice());
        assert(superblock == volume.superblock);
        if !superblock.has_sound_layout() {
            return Err(Error::Corrupt);
        }
        proof {
            lemma_block_size_bounds(superblock);
        }
        let block_size = superblock.block_size();
        let block_count = len / block_size;
        let group_count = superblock.group_count(block_count);
        if block_count > MAX_BLOCK_COUNT || group_count > MAX_GROUP_COUNT {
            return Err(Error::Corrupt);
        }
        let table_blocks = blocks_for(group_count, DESCRIPTOR_SIZE, block_size);
        if !all_copies_fit(superblock, block_count, group_count, table_blocks, Ghost(volume)) {
            return Err(Error::Corrupt);
        }
        match read_block_group_descriptors(
            &sector_storage,
            superblock,
            block_count,
            group_count,
            Ghost(volume),
        ) {
            Some(block_group_descriptors) => Ok(
                Session { sector_storage, superblock, block_group_descriptors },
            ),
            None => Err(Error::Corrupt),
        }
    }

    /// The volume as the session sees it.
    pub closed spec fn view(&self) -> Volume {
        Volume {
            superblock: self.superblock,
            descriptors: self.block_group_descriptors@,
            disk: self.sector_storage@,
        }
    }

    /// The device works and the volume is sound.
    pub closed spec fn wf(&self) -> bool {
        &&& self.sector_storage.inv()
        &&& self@.wf()
    }

    /// The volume of a session that can be worked on is sound.
    pub proof fn lemma_volume_wf(&self)
        requires
            self.wf(),
        ensures
            self@.wf(),
    {
    }

    /// The superblock held in memory.
    pub fn superblock(&self) -> (superblock: Superblock)
        ensures
            superblock == self@.superblock,
    {
        self.superblock
    }

    /// Ends the session and gives the device back.
    pub fn into_sector_storage(self) -> (sector_storage: SS)
        ensures
            sector_storage@ == self@.disk,
            self.wf() ==> sector_storage.inv(),
    {
        self.sector_storage
    }

    /// Bytes in a block.
    pub fn block_size(&self) -> (size: u64)
        requires
            self.wf(),
        ensures
            size == self@.block_size(),
            1024 <= size <= 0x80_0000,
            size % 1024 == 0,
    {
        proof {
            lemma_block_size_bounds(self.superblock);
        }
        self.superblock.block_size()
    }

    /// Number of whole blocks that the device holds.
    pub fn block_count(&self) -> (count: u64)
        requires
            self.wf(),
        ensures
            count == self@.block_count(),
            count <= MAX_BLOCK_COUNT,
    {
        self.sector_storage.len() / self.block_size()
    }

    /// The bytes of block `block_index`.
    pub fn read_block(&self, block_index: u64) -> (block_data: Vec<u8>)
        requires
            self.wf(),
            block_index < self@.block_count(),
        ensures
            block_data@ == self@.block(block_index as int),
            block_data@.len() == self@.block_size(),
    {
        proof {
            self@.lemma_block_in_disk(block_index as int);
        }
        let block_size = self.block_size();
        self.sector_storage.read_aligned(block_index * block_size, block_size)
    }

    /// Replaces block `block_index` by `block_data`; nothing else changes.
    pub fn write_block(&mut self, block_index: u64, block_data: &[u8])
        requires
            old(self).wf(),
            block_index < old(self)@.block_count(),
            block_data@.len() == old(self)@.block_size(),
        ensures
            final(self).wf(),
            final(self)@ == old(self)@.with_block(block_index as int, block_data@),
    {
        proof {
            self@.lemma_block_in_disk(block_index as int);
            self@.lemma_with_bytes_wf(block_index * self@.block_size(), block_data@);
        }
        let block_size = self.block_size();
        self.sector_storage.write_aligned(block_index * block_size, block_data);
    }

    /// Replaces the bytes from `start` on by `data`, all inside one block;
    /// nothing else changes.
    pub fn write_bytes(&mut self, start: u64, data: &[u8])
        requires
            old(self).wf(),
            start as int / old(self)@.block_size() < old(self)@.block_count(),
            start as int % old(self)@.block_size() + data@.len() <= old(self)@.block_size(),
        ensures
            final(self).wf(),
            final(self)@ == old(self)@.with_bytes(start as int, data@),
    {
        let block_size = self.block_size();
        let block_index = start / block_size;
        let offset = start % block_size;
        proof {
            self@.lemma_block_in_disk(block_index as int);
            self@.lemma_with_bytes_wf(start as int, data@);
        }
        let mut block_data = self.read_block(block_index);
        copy_into(block_data.as_mut_slice(), offset as usize, data);
        self.write_block(block_index, block_data.as_slice());
        proof {
            vstd::arithmetic::div_mod::lemma_fundamental_div_mod(start as int, block_size as int);
            assert(block_size * block_index == block_index * block_size) by (nonlinear_arith);
            assert(self@.disk =~= splice(old(self)@.disk, start as int, data@));
        }
    }

    /// Number of block groups.
    pub fn block_group_count(&self) -> (count: u64)
        requires
            self.wf(),
        ensures
            count == self@.group_count(),
            count == self@.descriptors.len(),
    {
        self.superblock.group_count(self.block_count())
    }

    /// The first block of group `block_group_index`.
    pub fn block_group_start(&self, block_group_index: u64) -> (start: u64)
        requires
            self.wf(),
            block_group_index < self@.group_count(),
        ensures
            start == self@.group_start(block_group_index as int),
            start < self@.block_count(),
    {
        proof {
            self@.lemma_group_range(block_group_index as int);
            assert(0 <= block_group_index * self.superblock.block_count_per_block_group)
                by (nonlinear_arith);
        }
        self.superblock.first_data_block_block_index + block_group_index
            * self.superblock.block_count_per_block_group
    }

    /// The block after the last block of group `block_group_index`.
    pub fn block_group_end(&self, block_group_index: u64) -> (end: u64)
        requires
            self.wf(),
            block_group_index < self@.group_count(),
        ensures
            end == self@.group_end(block_group_index as int),
            self@.group_start(block_group_index as int) < end <= self@.block_count(),
    {
        proof {
            self@.lemma_group_range(block_group_index as int);
        }
        let start = self.block_group_start(block_group_index);
        let block_count = self.block_count();
        if self.superblock.block_count_per_block_group <= block_count - start {
            start + self.superblock.block_count_per_block_group
        } else {
            block_count
        }
    }

    /// The block groups, each as the range of its blocks: they start at the
    /// first data block and follow one another, none is empty, and the last
    /// ends with the device.
    pub fn block_group_ranges(&self) -> (ranges: Vec<Range<u64>>)
        requires
            self.wf(),
        ensures
            ranges@.len() == self@.group_count(),
            forall|group: int|
                0 <= group < ranges@.len() ==> {
                    &&& (#[trigger] ranges@[group]).start == self@.group_start(group)
                    &&& ranges@[group].end == self@.group_end(group)
                    &&& ranges@[group].start < ranges@[group].end
                },
            forall|group: int|
                0 <= group < ranges@.len() - 1 ==> (#[trigger] ranges@[group]).end == ranges@[group
                    + 1].start,
            ranges@.len() > 0 ==> ranges@[0].start == self@.superblock.first_data_block_block_index
                && ranges@[ranges@.len() - 1].end == self@.block_count(),
    {
        let count = self.block_group_count();
        let mut ranges: Vec<Range<u64>> = Vec::new();
        let mut group: u64 = 0;
        while group < count
            invariant
                self.wf(),
                count == self@.group_count(),
                group <= count,
                ranges@.len() == group,
                forall|g: int|
                    0 <= g < ranges@.len() ==> {
                        &&& (#[trigger] ranges@[g]).start == self@.group_start(g)
                        &&& ranges@[g].end == self@.group_end(g)
                        &&& ranges@[g].start < ranges@[g].end
                    },
            decreases count - group,
        {
            let start = self.block_group_start(group);
            let end = self.block_group_end(group);
            ranges.push(start..end);
            group += 1;
        }
        proof {
            assert forall|g: int| 0 <= g < ranges@.len() - 1 implies (#[trigger] ranges@[g]).end
                == ranges@[g + 1].start by {
                self@.lemma_group_range(g);
            }
            if ranges@.len() > 0 {
                self@.lemma_group_range(ranges@.len() - 1);
            }
        }
        ranges
    }

    /// Whether group `block_group_index` holds a copy of the superblock and of
    /// the descriptor table.
    pub fn block_group_contains_superblock_and_block_group_descriptor_table_copies(
        &self,
        block_group_index: u64,
    ) -> (contains: bool)
        ensures
            contains == self@.group_has_copies(block_group_index as int),
    {
        self.superblock.group_has_copies(block_group_index)
    }

    /// Stores the superblock and the descriptor table held in memory in every
    /// group that holds copies, the superblock each time with the index of the
    /// group that receives it.
    pub fn update_superblock_and_block_group_descriptor_table_copies(&mut self)
        requires
            old(self).wf(),
        ensures
            final(self).wf(),
            final(self)@ == old(self)@.with_copies(),
    {
        let group_count = self.block_group_count();
        let block_size = self.block_size();
        let ghost volume = self@;
        let mut group: u64 = 0;
        while group < group_count
            invariant
                self.wf(),
                volume.wf(),
                group_count == volume.group_count(),
                block_size == volume.block_size(),
                group <= group_count,
                self@ == volume.with_copies_upto(group as int),
                self@.superblock == volume.superblock,
                self@.descriptors == volume.descriptors,
                self@.disk.len() == volume.disk.len(),
            decreases group_count - group,
        {
            if self.superblock.group_has_copies(group) {
                proof {
                    self@.lemma_superblock_copy_place(group as int);
                    volume.lemma_group_range(group as int);
                }
                let copy = Superblock { block_group_index: group, ..self.superblock };
                let mut copy_data = zeroed(SUPERBLOCK_FIELDS_SIZE);
                copy.update_bytes(copy_data.as_mut_slice());
                proof {
                    copy.lemma_written_over_frame(zero_bytes(SUPERBLOCK_FIELDS_SIZE as nat));
                }
                let copy_start = if group == 0 {
                    SUPERBLOCK_START
                } else {
                    self.block_group_start(group) * block_size
                };
                self.write_bytes(copy_start, copy_data.as_slice());
                let ghost with_superblock = self@;
                proof {
                    assert(self@.copies_fit(group as int));
                    self@.lemma_descriptor_copy_place(group as int, 0);
                }
                let table_start = (self.block_group_start(group) + 1) * block_size;
                let mut index: usize = 0;
                while index < self.block_group_descriptors.len()
                    invariant
                        self.wf(),
                        volume.wf(),
                        group < group_count,
                        group_count == volume.group_count(),
                        block_size == volume.block_size(),
                        volume.group_has_copies(group as int),
                        table_start == (volume.group_start(group as int) + 1) * block_size,
                        index <= self.block_group_descriptors@.len(),
                        self@ == with_superblock.with_descriptor_copies(group as int, index as int),
                        self@.superblock == volume.superblock,
                        self@.descriptors == volume.descriptors,
                        with_superblock.superblock == volume.superblock,
                        with_superblock.descriptors == volume.descriptors,
                        self@.disk.len() == volume.disk.len(),
                    decreases self.block_group_descriptors@.len() - index,
                {
                    proof {
                        assert(self@.copies_fit(group as int));
                        self@.lemma_descriptor_copy_place(group as int, index as int);
                        assert(self@.descriptor_in_range(index as int));
                    }
                    let descriptor = self.block_group_descriptors[index];
                    let mut descriptor_data = zeroed(DESCRIPTOR_FIELDS_SIZE);
                    descriptor.update_bytes(descriptor_data.as_mut_slice());
                    proof {
                        descriptor.lemma_written_over_frame(
                            zero_bytes(DESCRIPTOR_FIELDS_SIZE as nat),
                        );
                    }
                    self.write_bytes(
                        table_start + index as u64 * DESCRIPTOR_SIZE,
                        descriptor_data.as_slice(),
                    );
                    index += 1;
                }
            }
            group += 1;
        }
    }

    /// The block bitmap of group `block_group_index`.
    pub fn read_block_bitmap(&self, block_group_index: u64) -> (block_bitmap: Bitmap)
        requires
            self.wf(),
            block_group_index < self@.group_count(),
        ensures
            block_bitmap.data@ == self@.block_bitmap(block_group_index as int),
            block_bitmap.data@.len() == self@.block_size(),
    {
        assert(self@.descriptor_in_range(block_group_index as int));
        Bitmap {
            data: self.read_block(
                self.block_group_descriptors[block_group_index as usize].block_bitmap_block_index,
            ),
        }
    }

    /// Stores `block_bitmap` as the block bitmap of group `block_group_index`.
    pub fn update_block_bitmap(&mut self, block_group_index: u64, block_bitmap: Bitmap)
        requires
            old(self).wf(),
            block_group_index < old(self)@.group_count(),
            block_bitmap.data@.len() == old(self)@.block_size(),
        ensures
            final(self).wf(),
            final(self)@ == old(self)@.with_block(
                old(self)@.descriptors[block_group_index as int].block_bitmap_block_index as int,
                block_bitmap.data@,
            ),
    {
        assert(self@.descriptor_in_range(block_group_index as int));
        let block_index =
            self.block_group_descriptors[block_group_index as usize].block_bitmap_block_index;
        self.write_block(block_index, block_bitmap.data.as_slice());
    }

    /// The inode bitmap of group `block_group_index`.
    pub fn read_inode_bitmap(&self, block_group_index: u64) -> (inode_bitmap: Bitmap)
        requires
            self.wf(),
            block_group_index < self@.group_count(),
        ensures
            inode_bitmap.data@ == self@.inode_bitmap(block_group_index as int),
            inode_bitmap.data@.len() == self@.block_size(),
    {
        assert(self@.descriptor_in_range(block_group_index as int));
        Bitmap {
            data: self.read_block(
                self.block_group_descriptors[block_group_index as usize].inode_bitmap_block_index,
            ),
        }
    }

    /// Stores `inode_bitmap` as the inode bitmap of group `block_group_index`.
    pub fn update_inode_bitmap(&mut self, block_group_index: u64, inode_bitmap: Bitmap)
        requires
            old(self).wf(),
            block_group_index < old(self)@.group_count(),
            inode_bitmap.data@.len() == old(self)@.block_size(),
        ensures
            final(self).wf(),
            final(self)@ == old(self)@.with_block(
                old(self)@.descriptors[block_group_index as int].inode_bitmap_block_index as int,
                inode_bitmap.data@,
            ),
    {
        assert(self@.descriptor_in_range(block_group_index as int));
        let block_index =
            self.block_group_descriptors[block_group_index as usize].inode_bitmap_block_index;
        self.write_block(block_index, inode_bitmap.data.as_slice());
    }

    /// Adds `change`, one up or one down, to the free blocks that the
    /// superblock and the descriptor of `group` count, and stores the new
    /// counts in every copy.
    fn change_free_blocks(&mut self, group: usize, up: bool)
        requires
            old(self).wf(),
            group < old(self)@.group_count(),
            up ==> old(self)@.superblock.free_blocks_count < u32::MAX && old(
                self,
            )@.descriptors[group as int].free_blocks_count < u16::MAX,
            !up ==> old(self)@.superblock.free_blocks_count > 0 && old(
                self,
            )@.descriptors[group as int].free_blocks_count > 0,
        ensures
            final(self).wf(),
            final(self)@ == old(self)@.with_free_blocks_changed(
                group as int,
                if up {
                    1
                } else {
                    -1
                },
            ).with_copies(),
            final(self)@.descriptors[group as int].block_bitmap_block_index == old(
                self,
            )@.descriptors[group as int].block_bitmap_block_index,
            final(self)@.constants() == old(self)@.constants(),
            final(self)@.group_count() == old(self)@.group_count(),
    {
        proof {
            assert(self@.descriptor_in_range(group as int));
            self@.lemma_with_free_blocks_changed_wf(
                group as int,
                if up {
                    1
                } else {
                    -1
                },
            );
        }
        let mut descriptor = self.block_group_descriptors[group];
        if up {
            self.superblock.free_blocks_count = self.superblock.free_blocks_count + 1;
            descriptor.free_blocks_count = descriptor.free_blocks_count + 1;
        } else {
            self.superblock.free_blocks_count = self.superblock.free_blocks_count - 1;
            descriptor.free_blocks_count = descriptor.free_blocks_count - 1;
        }
        self.block_group_descriptors[group] = descriptor;
        let ghost counted = self@;
        self.update_superblock_and_block_group_descriptor_table_copies();
        proof {
            counted.lemma_with_copies_keeps(counted.group_count());
        }
    }

    /// Adds one, up or down, to the free inodes that the superblock and the
    /// descriptor of `group` count, and stores the new counts in every copy.
    fn change_free_inodes(&mut self, group: usize, up: bool)
        requires
            old(self).wf(),
            group < old(self)@.group_count(),
            up ==> old(self)@.superblock.free_inodes_count < u32::MAX && old(
                self,
            )@.descriptors[group as int].free_inodes_count < u16::MAX,
            !up ==> old(self)@.superblock.free_inodes_count > 0 && old(
                self,
            )@.descriptors[group as int].free_inodes_count > 0,
        ensures
            final(self).wf(),
            final(self)@ == old(self)@.with_free_inodes_changed(
                group as int,
                if up {
                    1
                } else {
                    -1
                },
            ).with_copies(),
            final(self)@.descriptors[group as int].inode_bitmap_block_index == old(
                self,
            )@.descriptors[group as int].inode_bitmap_block_index,
            final(self)@.constants() == old(self)@.constants(),
            final(self)@.group_count() == old(self)@.group_count(),
    {
        proof {
            assert(self@.descriptor_in_range(group as int));
            self@.lemma_with_free_inodes_changed_wf(
                group as int,
                if up {
                    1
                } else {
                    -1
                },
            );
        }
        let mut descriptor = self.block_group_descriptors[group];
        if up {
            self.superblock.free_inodes_count = self.superblock.free_inodes_count + 1;
            descriptor.free_inodes_count = descriptor.free_inodes_count + 1;
        } else {
            self.superblock.free_inodes_count = self.superblock.free_inodes_count - 1;
            descriptor.free_inodes_count = descriptor.free_inodes_count - 1;
        }
        self.block_group_descriptors[group] = descriptor;
        let ghost counted = self@;
        self.update_superblock_and_block_group_descriptor_table_copies();
        proof {
            counted.lemma_with_copies_keeps(counted.group_count());
        }
    }

    /// Takes a free block and marks it as used: see `Volume::allocate_block`.
    pub fn allocate_block(&mut self) -> (block_index: Result<u64, Error>)
        requires
            old(self).wf(),
        ensures
            final(self).wf(),
            (final(self)@, block_index) == old(self)@.allocate_block(),
            block_index matches Ok(index) ==> index < final(self)@.block_count(),
            final(self)@.constants() == old(self)@.constants(),
    {
        let group_count = self.block_group_descriptors.len();
        let mut group: usize = 0;
        while group < group_count && self.block_group_descriptors[group].free_blocks_count == 0
            invariant
                group_count == self.block_group_descriptors@.len(),
                group <= group_count,
                forall|lower: int|
                    0 <= lower < group ==> self.block_group_descriptors@[lower].free_blocks_count
                        == 0,
            decreases group_count - group,
        {
            group += 1;
        }
        if group == group_count {
            assert(self@.first_group_with_free_blocks() is None) by {
                assert forall|g: int| !self@.is_first_group_with_free_blocks(g) by {}
            }
            return Err(Error::NoSpace);
        }
        proof {
            self@.lemma_first_group_with_free_blocks(group as int);
            self@.lemma_group_range(group as int);
        }
        let start = self.block_group_start(group as u64);
        let end = self.block_group_end(group as u64);
        let mut block_bitmap = self.read_block_bitmap(group as u64);
        match block_bitmap.first_clear((end - start) as usize) {
            None => Err(Error::Corrupt),
            Some(index) => {
                if self.superblock.free_blocks_count == 0 {
                    return Err(Error::Corrupt);
                }
                self.change_free_blocks(group, false);
                block_bitmap.set(index, true);
                self.update_block_bitmap(group as u64, block_bitmap);
                Ok(start + index as u64)
            },
        }
    }

    /// Gives block `block_index` back: see `Volume::free_block`.
    pub fn free_block(&mut self, block_index: u64) -> (freed: Result<(), Error>)
        requires
            old(self).wf(),
        ensures
            final(self).wf(),
            (final(self)@, freed) == old(self)@.free_block(block_index as int),
            final(self)@.constants() == old(self)@.constants(),
    {
        if block_index < self.superblock.first_data_block_block_index || block_index
            >= self.block_count() {
            return Err(Error::Corrupt);
        }
        let group = (block_index - self.superblock.first_data_block_block_index)
            / self.superblock.block_count_per_block_group;
        proof {
            self@.lemma_group_of_block(block_index as int);
            self@.lemma_group_range(group as int);
        }
        let start = self.block_group_start(group);
        let index = (block_index - start) as usize;
        let mut block_bitmap = self.read_block_bitmap(group);
        if !block_bitmap.get(index) || self.superblock.free_blocks_count >= 0xffff_ffff
            || self.block_group_descriptors[group as usize].free_blocks_count >= 0xffff {
            return Err(Error::Corrupt);
        }
        self.change_free_blocks(group as usize, true);
        block_bitmap.set(index, false);
        self.update_block_bitmap(group, block_bitmap);
        Ok(())
    }

    /// Number of inodes of the volume; they are numbered from 1.
    pub fn inode_count(&self) -> (count: u64)
        requires
            self.wf(),
        ensures
            count == self@.inode_count(),
    {
        let group_count = self.block_group_count();
        assert(group_count * self.superblock.inode_count_per_block_group <= 0x1_0000 * 0xffff_ffff)
            by (nonlinear_arith)
            requires
                group_count <= 0x1_0000,
                self.superblock.inode_count_per_block_group <= 0xffff_ffff,
        ;
        group_count * self.superblock.inode_count_per_block_group
    }

    /// Takes a free inode and marks it as used: see `Volume::allocate_inode`.
    pub fn allocate_inode(&mut self) -> (inode_index: Result<u64, Error>)
        requires
            old(self).wf(),
        ensures
            final(self).wf(),
            (final(self)@, inode_index) == old(self)@.allocate_inode(),
            inode_index matches Ok(index) ==> final(self)@.inode_in_range(index as int),
            final(self)@.constants() == old(self)@.constants(),
    {
        let group_count = self.block_group_descriptors.len();
        let mut group: usize = 0;
        while group < group_count && self.block_group_descriptors[group].free_inodes_count == 0
            invariant
                group_count == self.block_group_descriptors@.len(),
                group <= group_count,
                forall|lower: int|
                    0 <= lower < group ==> self.block_group_descriptors@[lower].free_inodes_count
                        == 0,
            decreases group_count - group,
        {
            group += 1;
        }
        if group == group_count {
            assert(self@.first_group_with_free_inodes() is None) by {
                assert forall|g: int| !self@.is_first_group_with_free_inodes(g) by {}
            }
            return Err(Error::NoSpace);
        }
        proof {
            self@.lemma_first_group_with_free_inodes(group as int);
            lemma_block_size_bounds(self.superblock);
        }
        let per_group = self.superblock.inode_count_per_block_group;
        let mut inode_bitmap = self.read_inode_bitmap(group as u64);
        match inode_bitmap.first_clear(per_group as usize) {
            None => Err(Error::Corrupt),
            Some(index) => {
                assert(group * per_group + index < (group + 1) * per_group <= group_count
                    * per_group <= 0x1_0000 * 0xffff_ffff) by (nonlinear_arith)
                    requires
                        index < per_group <= 0xffff_ffff,
                        group < group_count <= 0x1_0000,
                ;
                let inode_index = 1 + group as u64 * per_group + index as u64;
                if inode_index < self.superblock.first_usable_inode_index
                    || self.superblock.free_inodes_count == 0 {
                    return Err(Error::Corrupt);
                }
                self.change_free_inodes(group, false);
                inode_bitmap.set(index, true);
                self.update_inode_bitmap(group as u64, inode_bitmap);
                Ok(inode_index)
            },
        }
    }

    /// Gives inode `inode_index` back: see `Volume::free_inode`.
    pub fn free_inode(&mut self, inode_index: u64) -> (freed: Result<(), Error>)
        requires
            old(self).wf(),
            old(self)@.inode_in_range(inode_index as int),
        ensures
            final(self).wf(),
            (final(self)@, freed) == old(self)@.free_inode(inode_index as int),
            final(self)@.constants() == old(self)@.constants(),
    {
        proof {
            self@.lemma_inode_place(inode_index as int);
            lemma_block_size_bounds(self.superblock);
        }
        let group = (inode_index - 1) / self.superblock.inode_count_per_block_group;
        let index = ((inode_index - 1) % self.superblock.inode_count_per_block_group) as usize;
        let mut inode_bitmap = self.read_inode_bitmap(group);
        if !inode_bitmap.get(index) || self.superblock.free_inodes_count >= 0xffff_ffff
            || self.block_group_descriptors[group as usize].free_inodes_count >= 0xffff {
            return Err(Error::Corrupt);
        }
        self.change_free_inodes(group as usize, true);
        inode_bitmap.set(index, false);
        self.update_inode_bitmap(group, inode_bitmap);
        Ok(())
    }

    /// Inode `inode_index`, read from the inode table.
    pub fn read_inode(&self, inode_index: u64) -> (inode: Inode)
        requires
            self.wf(),
            self@.inode_in_range(inode_index as int),
        ensures
            inode == self@.inode(inode_index as int),
            inode.fits(),
    {
        proof {
            self@.lemma_inode_place(inode_index as int);
        }
        let block_size = self.block_size();
        let inode_block_group_index = (inode_index - 1)
            / self.superblock.inode_count_per_block_group;
        let inode_block_group_inode_index = (inode_index - 1)
            % self.superblock.inode_count_per_block_group;
        let inode_offset = inode_block_group_inode_index * self.superblock.inode_size;
        let inode_block_index = self.block_group_descriptors[inode_block_group_index as usize]
            .inode_table_first_block_index + inode_offset / block_size;
        let inode_block_offset = (inode_offset % block_size) as usize;
        let inode_block_data = self.read_block(inode_block_index);
        let inode = Inode::of_bytes(
            &inode_block_data[inode_block_offset..inode_block_offset + INODE_PRACTICAL_SIZE],
        );
        proof {
            let start = self@.inode_start(inode_index as int);
            vstd::arithmetic::div_mod::lemma_fundamental_div_mod(start, block_size as int);
            assert(start / (block_size as int) == inode_block_index);
            assert(start % (block_size as int) == inode_block_offset);
            assert(block_size * inode_block_index == inode_block_index * block_size)
                by (nonlinear_arith);
            assert(start == inode_block_index * block_size + inode_block_offset);
            self@.lemma_block_in_disk(inode_block_index as int);
            assert(inode_block_data@.subrange(
                inode_block_offset as int,
                inode_block_offset + INODE_PRACTICAL_SIZE,
            ) =~= self@.disk.subrange(start, start + INODE_PRACTICAL_SIZE));
        }
        inode
    }

    /// Stores `inode` as inode `inode_index` in the inode table; nothing else
    /// changes.
    pub fn update_inode(&mut self, inode_index: u64, inode: &Inode)
        requires
            old(self).wf(),
            old(self)@.inode_in_range(inode_index as int),
            inode.fits(),
        ensures
            final(self).wf(),
            final(self)@ == old(self)@.with_inode(inode_index as int, *inode),
    {
        proof {
            self@.lemma_inode_place(inode_index as int);
            inode.lemma_written_over_frame(zero_bytes(INODE_PRACTICAL_SIZE as nat));
        }
        let block_size = self.block_size();
        let inode_block_group_index = (inode_index - 1)
            / self.superblock.inode_count_per_block_group;
        let inode_block_group_inode_index = (inode_index - 1)
            % self.superblock.inode_count_per_block_group;
        let inode_offset = inode_block_group_inode_index * self.superblock.inode_size;
        let inode_start = self.block_group_descriptors[inode_block_group_index as usize]
            .inode_table_first_block_index * block_size + inode_offset;
        let mut inode_data = zeroed(INODE_PRACTICAL_SIZE);
        inode.update_bytes(inode_data.as_mut_slice());
        self.write_bytes(inode_start, inode_data.as_slice());
    }
}

} // verus!
