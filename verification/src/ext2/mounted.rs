//! A volume mounted for one purpose: to bring the copies of its superblock up
//! to date.

use crate::bytes::{copy_into, splice, zero_bytes, zeroed};
use crate::ext2::superblock::{
    Superblock, SUPERBLOCK_FIELDS_SIZE, SUPERBLOCK_SIZE, SUPERBLOCK_START,
};
use crate::ext2::volume::{lemma_block_size_bounds, Volume, MAX_BLOCK_COUNT, MAX_GROUP_COUNT};
use crate::fs::Error;
use crate::sector_storage::SectorStorage;
use core::ops::Range;
use vstd::prelude::*;

verus! {

impl Volume {
    /// The volume after the first `count` groups have stored their copy of the
    /// superblock, each with its own index, where they hold one.
    pub open spec fn with_superblock_copies_upto(self, count: int) -> Volume
        decreases count,
    {
        if count <= 0 {
            self
        } else {
            let before = self.with_superblock_copies_upto(count - 1);
            if self.group_has_copies(count - 1) {
                before.with_bytes(
                    self.superblock_copy_start(count - 1),
                    self.superblock_copy(count - 1).encoded(),
                )
            } else {
                before
            }
        }
    }

    /// The volume after the superblock held in memory has been stored in every
    /// group that holds a copy.
    pub open spec fn with_superblock_copies(self) -> Volume {
        self.with_superblock_copies_upto(self.group_count())
    }

    /// The superblock that a device holds, with no descriptor read.
    pub open spec fn header_of(disk: Seq<u8>) -> Volume {
        Volume {
            superblock: Superblock::decode(
                disk.subrange(SUPERBLOCK_START as int, SUPERBLOCK_START + SUPERBLOCK_SIZE),
            ),
            descriptors: Seq::empty(),
            disk,
        }
    }

    /// The device holds a superblock that parses and gives a sound layout.
    pub open spec fn header_mountable(disk: Seq<u8>) -> bool {
        &&& disk.len() >= SUPERBLOCK_START + SUPERBLOCK_SIZE
        &&& Superblock::valid_bytes(
            disk.subrange(SUPERBLOCK_START as int, SUPERBLOCK_START + SUPERBLOCK_SIZE),
        )
        &&& Self::header_of(disk).layout_ok()
    }
}

/// A device and the superblock read from it.
pub struct Mounted<SS: SectorStorage> {
    sector_storage: SS,
    superblock: Superblock,
}

impl<SS: SectorStorage> Mounted<SS> {
    /// The volume as it is seen here: the superblock, the bytes of the device,
    /// and no descriptor.
    pub closed spec fn view(&self) -> Volume {
        Volume {
            superblock: self.superblock,
            descriptors: Seq::empty(),
            disk: self.sector_storage@,
        }
    }

    /// The device works and the layout is sound.
    pub closed spec fn wf(&self) -> bool {
        &&& self.sector_storage.inv()
        &&& self@.layout_ok()
    }

    /// Reads the superblock that `sector_storage` holds; a device whose
    /// superblock does not parse, or gives no sound layout, is refused.
    pub fn new(sector_storage: SS) -> (mounted: Result<Mounted<SS>, Error>)
        requires
            sector_storage.inv(),
        ensures
            match mounted {
                Ok(mounted) => {
                    &&& Volume::header_mountable(sector_storage@)
                    &&& mounted.wf()
                    &&& mounted@ == Volume::header_of(sector_storage@)
                },
                Err(error) => error == Error::Corrupt && !Volume::header_mountable(
                    sector_storage@,
                ),
            },
    {
        let len = sector_storage.len();
        if len < SUPERBLOCK_START + SUPERBLOCK_SIZE {
            return Err(Error::Corrupt);
        }
        let superblock_data = sector_storage.read_aligned(SUPERBLOCK_START, SUPERBLOCK_SIZE);
        if !Superblock::bytes_are_valid(superblock_data.as_slice()) {
            return Err(Error::Corrupt);
        }
        let superblock = Superblock::of_bytes(superblock_data.as_slice());
        if !superblock.has_sound_layout() {
            return Err(Error::Corrupt);
        }
        proof {
            lemma_block_size_bounds(superblock);
        }
        let block_count = len / superblock.block_size();
        if block_count > MAX_BLOCK_COUNT || superblock.group_count(block_count)
            > MAX_GROUP_COUNT {
            return Err(Error::Corrupt);
        }
        Ok(Mounted { sector_storage, superblock })
    }

    /// Ends the work and gives the device back.
    pub fn into_sector_storage(self) -> (sector_storage: SS)
        ensures
            sector_storage@ == self@.disk,
            self.wf() ==> sector_storage.inv(),
    {
        self.sector_storage
    }

    /// Bytes in a block.
    pub fn block_size(&self) -> (size: u64)
        requires
            self.wf(),
        ensures
            size == self@.block_size(),
            1024 <= size <= 0x80_0000,
            size % 1024 == 0,
    {
        proof {
            lemma_block_size_bounds(self.superblock);
        }
        self.superblock.block_size()
    }

    /// Number of whole blocks that the device holds.
    pub fn block_count(&self) -> (count: u64)
        requires
            self.wf(),
        ensures
            count == self@.block_count(),
    {
        self.sector_storage.len() / self.block_size()
    }

    /// The bytes of block `block_index`.
    pub fn read_block(&self, block_index: u64) -> (block_data: Vec<u8>)
        requires
            self.wf(),
            block_index < self@.block_count(),
        ensures
            block_data@ == self@.block(block_index as int),
            block_data@.len() == self@.block_size(),
    {
        proof {
            self@.lemma_block_in_disk(block_index as int);
        }
        let block_size = self.block_size();
        self.sector_storage.read_aligned(block_index * block_size, block_size)
    }

    /// Replaces block `block_index` by `block_data`; nothing else changes.
    pub fn write_block(&mut self, block_index: u64, block_data: &[u8])
        requires
            old(self).wf(),
            block_index < old(self)@.block_count(),
            block_data@.len() == old(self)@.block_size(),
        ensures
            final(self).wf(),
            final(self)@ == old(self)@.with_block(block_index as int, block_data@),
    {
        proof {
            self@.lemma_block_in_disk(block_index as int);
        }
        let block_size = self.block_size();
        self.sector_storage.write_aligned(block_index * block_size, block_data);
    }

    /// The block groups, each as the range of its blocks: they start at the
    /// first data block and follow one another, none is empty, and the last
    /// ends with the device.
    pub fn block_group_ranges(&self) -> (ranges: Vec<Range<u64>>)
        requires
            self.wf(),
        ensures
            ranges@.len() == self@.group_count(),
            forall|group: int|
                0 <= group < ranges@.len() ==> {
                    &&& (#[trigger] ranges@[group]).start == self@.group_start(group)
                    &&& ranges@[group].end == self@.group_end(group)
                    &&& ranges@[group].start < ranges@[group].end
                },
    {
        let block_count = self.block_count();
        let count = self.superblock.group_count(block_count);
        let per_group = self.superblock.block_count_per_block_group;
        let mut ranges: Vec<Range<u64>> = Vec::new();
        let mut group: u64 = 0;
        while group < count
            invariant
                self.wf(),
                count == self@.group_count(),
                block_count == self@.block_count(),
                per_group == self@.superblock.block_count_per_block_group,
                group <= count,
                ranges@.len() == group,
                forall|g: int|
                    0 <= g < ranges@.len() ==> {
                        &&& (#[trigger] ranges@[g]).start == self@.group_start(g)
                        &&& ranges@[g].end == self@.group_end(g)
                        &&& ranges@[g].start < ranges@[g].end
                    },
            decreases count - group,
        {
            proof {
                self@.lemma_group_range(group as int);
                assert(0 <= group * per_group) by (nonlinear_arith);
            }
            let start = self.superblock.first_data_block_block_index + group * per_group;
            let end = if per_group <= block_count - start {
                start + per_group
            } else {
                block_count
            };
            ranges.push(start..end);
            group += 1;
        }
        ranges
    }

    /// Whether group `block_group_index` holds a copy of the superblock.
    pub fn block_group_index_contains_superblock_copies(&self, block_group_index: u64) -> (contains:
        bool)
        ensures
            contains == self@.group_has_copies(block_group_index as int),
    {
        self.superblock.group_has_copies(block_group_index)
    }

    /// Stores the superblock in every group that holds a copy of it, each
    /// time with the index of the group that receives it.
    pub fn write_superblock_copies(&mut self)
        requires
            old(self).wf(),
        ensures
            final(self).wf(),
            final(self)@ == old(self)@.with_superblock_copies(),
    {
        let block_size = self.block_size();
        let group_count = self.superblock.group_count(self.block_count());
        let ghost volume = self@;
        let mut group: u64 = 0;
        while group < group_count
            invariant
                self.wf(),
                volume.layout_ok(),
                group_count == volume.group_count(),
                block_size == volume.block_size(),
                1024 <= block_size <= 0x80_0000,
                group <= group_count,
                self@ == volume.with_superblock_copies_upto(group as int),
                self@.superblock == volume.superblock,
                self@.disk.len() == volume.disk.len(),
            decreases group_count - group,
        {
            if self.superblock.group_has_copies(group) {
                proof {
                    self@.lemma_superblock_copy_place(group as int);
                    volume.lemma_group_range(group as int);
                }
                let copy = Superblock { block_group_index: group, ..self.superblock };
                let mut copy_data = zeroed(SUPERBLOCK_FIELDS_SIZE);
                copy.update_bytes(copy_data.as_mut_slice());
                proof {
                    copy.lemma_written_over_frame(zero_bytes(SUPERBLOCK_FIELDS_SIZE as nat));
                }
                let copy_start = if group == 0 {
                    SUPERBLOCK_START
                } else {
                    (self.superblock.first_data_block_block_index + group
                        * self.superblock.block_count_per_block_group) * block_size
                };
                let block_index = copy_start / block_size;
                let offset = (copy_start % block_size) as usize;
                let mut block_data = self.read_block(block_index);
                copy_into(block_data.as_mut_slice(), offset, copy_data.as_slice());
                let ghost before = self@;
                self.write_block(block_index, block_data.as_slice());
                proof {
                    vstd::arithmetic::div_mod::lemma_fundamental_div_mod(
                        copy_start as int,
                        block_size as int,
                    );
                    assert(block_size * block_index == block_index * block_size)
                        by (nonlinear_arith);
                    before.lemma_block_in_disk(block_index as int);
                    assert(self@.disk =~= splice(before.disk, copy_start as int, copy_data@));
                }
            }
            group += 1;
        }
    }
}

} // verus!
