//! The mathematical model of a mounted volume: the superblock and the
//! descriptor table that the session holds in memory, and the bytes of the
//! device; and the layout that follows from them.

use crate::bytes::splice;
use crate::ext2::bitmap::{bit, first_clear_bit, with_bit};
use crate::ext2::descriptor::{BlockGroupDescriptor, DESCRIPTOR_FIELDS_SIZE, DESCRIPTOR_SIZE};
use crate::ext2::inode::{Inode, INODE_PRACTICAL_SIZE};
use crate::fs::Error;
use crate::ext2::superblock::{
    Superblock, SUPERBLOCK_FIELDS_SIZE, SUPERBLOCK_SIZE, SUPERBLOCK_START,
};
use vstd::arithmetic::power::pow;
use vstd::arithmetic::power2::pow2;
use vstd::prelude::*;

verus! {

/// The largest `log_block_size` a volume may have: with it the span of the
/// triple indirect block, counted in blocks, still fits in a `u64`.
pub const MAX_LOG_BLOCK_SIZE: u32 = 13;

/// The largest number of block groups: the index of a group must fit the
/// sixteen bits that a superblock copy has for it.
pub const MAX_GROUP_COUNT: u64 = 0x1_0000;

/// The largest number of blocks: the index of a block must fit the 32 bits
/// that a pointer to it has on the device.
pub const MAX_BLOCK_COUNT: u64 = 0x1_0000_0000;

/// A volume as the session sees it.
pub struct Volume {
    /// The superblock held in memory.
    pub superblock: Superblock,
    /// The descriptor table held in memory.
    pub descriptors: Seq<BlockGroupDescriptor>,
    /// The bytes of the device.
    pub disk: Seq<u8>,
}

/// `value` is `base` raised to some power.
pub open spec fn spec_is_power_of(value: int, base: int) -> bool {
    exists|exponent: nat| pow(base, exponent) == value
}

/// Whether `value` is `base` raised to some power.
pub fn is_power_of(value: u64, base: u64) -> (is_power: bool)
    requires
        base >= 2,
        value >= 1,
    ensures
        is_power == spec_is_power_of(value as int, base as int),
{
    let mut power: u64 = 1;
    let ghost mut exponent: nat = 0;
    proof {
        vstd::arithmetic::power::lemma_pow0(base as int);
    }
    while power < value
        invariant
            base >= 2,
            value >= 1,
            power >= 1,
            power == pow(base as int, exponent),
            exponent > 0 ==> pow(base as int, (exponent - 1) as nat) < value,
        decreases value - power,
    {
        proof {
            vstd::arithmetic::power::lemma_pow_adds(base as int, exponent, 1);
            vstd::arithmetic::power::lemma_pow1(base as int);
        }
        if power > value / base {
            proof {
                // the next power is past `value`, and this one is below it
                vstd::arithmetic::div_mod::lemma_fundamental_div_mod(value as int, base as int);
                vstd::arithmetic::div_mod::lemma_mod_bound(value as int, base as int);
                assert(power * base > value) by (nonlinear_arith)
                    requires
                        power >= value / base + 1,
                        value == base * (value / base) + value % base,
                        value % base < base,
                        base >= 2,
                ;
                lemma_not_a_power(value as int, base as int, exponent);
            }
            return false;
        }
        proof {
            vstd::arithmetic::div_mod::lemma_fundamental_div_mod(value as int, base as int);
            vstd::arithmetic::div_mod::lemma_mod_bound(value as int, base as int);
        }
        assert(power * base <= value) by (nonlinear_arith)
            requires
                power <= value / base,
                value == base * (value / base) + value % base,
                0 <= value % base,
                base >= 2,
        ;
        assert(power * base > power) by (nonlinear_arith)
            requires
                power >= 1,
                base >= 2,
        ;
        power = power * base;
        proof {
            exponent = exponent + 1;
        }
    }
    proof {
        if power != value {
            assert(exponent > 0);
            lemma_not_a_power(value as int, base as int, (exponent - 1) as nat);
        }
    }
    power == value
}

/// A number strictly between two powers of `base` that follow one another
/// is no power of `base`.
proof fn lemma_not_a_power(value: int, base: int, exponent: nat)
    requires
        base >= 2,
        pow(base, exponent) < value < pow(base, exponent + 1),
    ensures
        !spec_is_power_of(value, base),
{
    assert forall|other: nat| pow(base, other) != value by {
        if other <= exponent {
            vstd::arithmetic::power::lemma_pow_increases(base as nat, other, exponent);
        } else {
            vstd::arithmetic::power::lemma_pow_increases(base as nat, exponent + 1, other);
        }
    }
}

impl Superblock {
    /// The superblock alone allows a layout: sizes are in range, inode records
    /// do not straddle blocks, a bitmap of one block covers a group, and the
    /// first data block is the one that holds the primary superblock.
    pub open spec fn layout_ok(self) -> bool {
        &&& self.fits()
        &&& self.log_block_size <= MAX_LOG_BLOCK_SIZE
        &&& 1 <= self.block_count_per_block_group <= 8 * self.spec_block_size()
        &&& 1 <= self.inode_count_per_block_group <= 8 * self.spec_block_size()
        &&& 128 <= self.inode_size
        &&& self.spec_block_size() % (self.inode_size as nat) == 0
        &&& self.first_data_block_block_index == SUPERBLOCK_START as nat / self.spec_block_size()
    }

    /// Number of block groups on a device of `block_count` blocks: the groups
    /// start at the first data block, each has `block_count_per_block_group`
    /// blocks but the last, which ends with the device.
    pub open spec fn spec_group_count(self, block_count: int) -> int {
        if block_count <= self.first_data_block_block_index {
            0
        } else {
            (block_count - self.first_data_block_block_index - 1) / (
            self.block_count_per_block_group as int) + 1
        }
    }

    /// The first block of group `group`.
    pub open spec fn spec_group_start(self, group: int) -> int {
        self.first_data_block_block_index + group * self.block_count_per_block_group
    }

    /// The block after the last block of group `group`, on a device of
    /// `block_count` blocks.
    pub open spec fn spec_group_end(self, group: int, block_count: int) -> int {
        if self.spec_group_start(group + 1) <= block_count {
            self.spec_group_start(group + 1)
        } else {
            block_count
        }
    }

    /// Whether group `group` holds a copy of the superblock and of the
    /// descriptor table: every group does, unless the volume keeps them sparse,
    /// and then group 0 and the groups whose index is a power of 3, 5 or 7.
    pub open spec fn spec_group_has_copies(self, group: int) -> bool {
        ||| !self.spec_sparse_super()
        ||| group == 0
        ||| spec_is_power_of(group, 3)
        ||| spec_is_power_of(group, 5)
        ||| spec_is_power_of(group, 7)
    }
}

impl Superblock {
    /// Number of block groups on a device of `block_count` blocks.
    pub fn group_count(self, block_count: u64) -> (count: u64)
        requires
            self.block_count_per_block_group >= 1,
        ensures
            count == self.spec_group_count(block_count as int),
    {
        if block_count <= self.first_data_block_block_index {
            0
        } else {
            (block_count - self.first_data_block_block_index - 1)
                / self.block_count_per_block_group + 1
        }
    }

    /// Whether the superblock alone allows a layout: see `layout_ok`.
    pub fn has_sound_layout(self) -> (sound: bool)
        requires
            self.fits(),
        ensures
            sound == self.layout_ok(),
    {
        if self.log_block_size > MAX_LOG_BLOCK_SIZE {
            return false;
        }
        proof {
            lemma_block_size_bounds(self);
        }
        let block_size = self.block_size();
        1 <= self.block_count_per_block_group && self.block_count_per_block_group <= 8 * block_size
            && 1 <= self.inode_count_per_block_group && self.inode_count_per_block_group <= 8
            * block_size && 128 <= self.inode_size && block_size % self.inode_size == 0
            && self.first_data_block_block_index == SUPERBLOCK_START / block_size
    }

    /// Whether group `group` holds a copy of the superblock and of the
    /// descriptor table.
    pub fn group_has_copies(self, group: u64) -> (has_copies: bool)
        ensures
            has_copies == self.spec_group_has_copies(group as int),
    {
        !self.sparse_super() || group == 0 || is_power_of(group, 3) || is_power_of(group, 5)
            || is_power_of(group, 7)
    }
}

/// Number of free blocks that the first `count` descriptors count.
pub open spec fn counted_free_blocks(descriptors: Seq<BlockGroupDescriptor>, count: int) -> int
    decreases count,
{
    if count <= 0 {
        0
    } else {
        counted_free_blocks(descriptors, count - 1) + descriptors[count - 1].free_blocks_count
    }
}

/// Number of free inodes that the first `count` descriptors count.
pub open spec fn counted_free_inodes(descriptors: Seq<BlockGroupDescriptor>, count: int) -> int
    decreases count,
{
    if count <= 0 {
        0
    } else {
        counted_free_inodes(descriptors, count - 1) + descriptors[count - 1].free_inodes_count
    }
}

/// What no operation on a mounted volume changes.
pub struct Constants {
    /// Bytes in a block.
    pub block_size: int,
    /// Number of blocks of the device.
    pub block_count: int,
    /// Number of inodes of the volume.
    pub inode_count: int,
    /// The free blocks that the superblock counts, less those that the
    /// descriptors count together: 0 on a volume whose counts agree.
    pub free_blocks_balance: int,
    /// The free inodes that the superblock counts, less those that the
    /// descriptors count together: 0 on a volume whose counts agree.
    pub free_inodes_balance: int,
}

impl Volume {
    /// What no operation changes: the sizes of the volume, and by how much
    /// the count of free blocks, and of free inodes, in the superblock differs
    /// from the sum of the counts in the descriptors.
    pub open spec fn constants(self) -> Constants {
        Constants {
            block_size: self.block_size(),
            block_count: self.block_count(),
            inode_count: self.inode_count(),
            free_blocks_balance: self.superblock.free_blocks_count - counted_free_blocks(
                self.descriptors,
                self.descriptors.len() as int,
            ),
            free_inodes_balance: self.superblock.free_inodes_count - counted_free_inodes(
                self.descriptors,
                self.descriptors.len() as int,
            ),
        }
    }

    /// The superblock counts as many free blocks, and as many free inodes, as
    /// the descriptors do together.
    pub open spec fn counts_agree(self) -> bool {
        self.constants().free_blocks_balance == 0 && self.constants().free_inodes_balance == 0
    }

    /// Bytes in a block.
    pub open spec fn block_size(self) -> int {
        self.superblock.spec_block_size() as int
    }

    /// Number of whole blocks that the device holds.
    pub open spec fn block_count(self) -> int {
        self.disk.len() as int / self.block_size()
    }

    /// Number of block indices that a block holds.
    pub open spec fn indices_per_block(self) -> int {
        self.block_size() / 4
    }

    /// Number of block groups.
    pub open spec fn group_count(self) -> int {
        self.superblock.spec_group_count(self.block_count())
    }

    /// The first block of group `group`.
    pub open spec fn group_start(self, group: int) -> int {
        self.superblock.spec_group_start(group)
    }

    /// The block after the last block of group `group`.
    pub open spec fn group_end(self, group: int) -> int {
        self.superblock.spec_group_end(group, self.block_count())
    }

    /// Whether group `group` holds copies of the superblock and the table.
    pub open spec fn group_has_copies(self, group: int) -> bool {
        self.superblock.spec_group_has_copies(group)
    }

    /// Number of blocks that a copy of the descriptor table takes.
    pub open spec fn table_block_count(self) -> int {
        (self.group_count() * DESCRIPTOR_SIZE + self.block_size() - 1) / self.block_size()
    }

    /// Number of blocks that a group's part of the inode table takes.
    pub open spec fn inode_table_block_count(self) -> int {
        (self.superblock.inode_count_per_block_group * self.superblock.inode_size
            + self.block_size() - 1) / self.block_size()
    }

    /// Number of inodes of the volume; they are numbered from 1.
    pub open spec fn inode_count(self) -> int {
        self.group_count() * self.superblock.inode_count_per_block_group
    }

    /// The bytes of block `index`.
    pub open spec fn block(self, index: int) -> Seq<u8> {
        self.disk.subrange(index * self.block_size(), (index + 1) * self.block_size())
    }

    /// The volume after `data` has been written from byte `at` on.
    pub open spec fn with_bytes(self, at: int, data: Seq<u8>) -> Volume {
        Volume { disk: splice(self.disk, at, data), ..self }
    }

    /// The volume after `data` has been written as block `index`.
    pub open spec fn with_block(self, index: int, data: Seq<u8>) -> Volume {
        self.with_bytes(index * self.block_size(), data)
    }

    /// Byte offset of the copy of the superblock in group `group`: the primary
    /// one at its fixed place, the others at the start of their group.
    pub open spec fn superblock_copy_start(self, group: int) -> int {
        if group == 0 {
            SUPERBLOCK_START as int
        } else {
            self.group_start(group) * self.block_size()
        }
    }

    /// Byte offset of descriptor `index` in the copy of the table in group
    /// `group`: the table starts with the block after the group's first.
    pub open spec fn descriptor_copy_start(self, group: int, index: int) -> int {
        (self.group_start(group) + 1) * self.block_size() + index * DESCRIPTOR_SIZE
    }

    /// The superblock as group `group` stores it: with the group's index.
    pub open spec fn superblock_copy(self, group: int) -> Superblock {
        Superblock { block_group_index: group as u64, ..self.superblock }
    }

    /// The volume after the first `count` descriptors have been stored in the
    /// copy of the table in group `group`.
    pub open spec fn with_descriptor_copies(self, group: int, count: int) -> Volume
        decreases count,
    {
        if count <= 0 {
            self
        } else {
            self.with_descriptor_copies(group, count - 1).with_bytes(
                self.descriptor_copy_start(group, count - 1),
                self.descriptors[count - 1].encoded(),
            )
        }
    }

    /// The volume after group `group` has stored its copies, if it holds any:
    /// the superblock with the group's index, then every descriptor.
    pub open spec fn with_group_copies(self, group: int) -> Volume {
        if self.group_has_copies(group) {
            self.with_bytes(
                self.superblock_copy_start(group),
                self.superblock_copy(group).encoded(),
            ).with_descriptor_copies(group, self.group_count())
        } else {
            self
        }
    }

    /// The volume after the first `count` groups have stored their copies.
    pub open spec fn with_copies_upto(self, count: int) -> Volume
        decreases count,
    {
        if count <= 0 {
            self
        } else {
            self.with_copies_upto(count - 1).with_group_copies(count - 1)
        }
    }

    /// The volume after the superblock and the descriptor table held in
    /// memory have been stored in every group that holds copies.
    pub open spec fn with_copies(self) -> Volume {
        self.with_copies_upto(self.group_count())
    }

    /// The volume that a device holds: the superblock at its fixed place, and
    /// the descriptor table in the blocks that follow the superblock's.
    #[verifier::opaque]
    pub open spec fn read_from(disk: Seq<u8>) -> Volume {
        let superblock = Superblock::decode(
            disk.subrange(SUPERBLOCK_START as int, SUPERBLOCK_START + SUPERBLOCK_SIZE),
        );
        let header = Volume { superblock, descriptors: Seq::empty(), disk };
        Volume {
            superblock,
            descriptors: Seq::new(
                header.group_count() as nat,
                |index: int|
                    BlockGroupDescriptor::decode(
                        disk.subrange(
                            header.descriptor_copy_start(0, index),
                            header.descriptor_copy_start(0, index) + DESCRIPTOR_FIELDS_SIZE,
                        ),
                    ),
            ),
            disk,
        }
    }

    /// The device holds a volume that a session can work on: it is long enough
    /// for a superblock, the superblock parses, and the volume read from the
    /// device is sound.
    #[verifier::opaque]
    pub open spec fn mountable(disk: Seq<u8>) -> bool {
        &&& disk.len() >= SUPERBLOCK_START + SUPERBLOCK_SIZE
        &&& Superblock::valid_bytes(
            disk.subrange(SUPERBLOCK_START as int, SUPERBLOCK_START + SUPERBLOCK_SIZE),
        )
        &&& Self::read_from(disk).wf()
    }

    /// Number of blocks of group `group`.
    pub open spec fn group_len(self, group: int) -> int {
        self.group_end(group) - self.group_start(group)
    }

    /// The block bitmap of group `group`, as the device holds it.
    pub open spec fn block_bitmap(self, group: int) -> Seq<u8> {
        self.block(self.descriptors[group].block_bitmap_block_index as int)
    }

    /// The inode bitmap of group `group`, as the device holds it.
    pub open spec fn inode_bitmap(self, group: int) -> Seq<u8> {
        self.block(self.descriptors[group].inode_bitmap_block_index as int)
    }

    /// `group` is the first group whose descriptor counts a free block.
    pub open spec fn is_first_group_with_free_blocks(self, group: int) -> bool {
        &&& 0 <= group < self.descriptors.len()
        &&& self.descriptors[group].free_blocks_count > 0
        &&& forall|lower: int| 0 <= lower < group ==> self.descriptors[lower].free_blocks_count == 0
    }

    /// The first group whose descriptor counts a free block, if there is one.
    pub open spec fn first_group_with_free_blocks(self) -> Option<int> {
        if exists|group: int| self.is_first_group_with_free_blocks(group) {
            Some(choose|group: int| self.is_first_group_with_free_blocks(group))
        } else {
            None
        }
    }

    /// `group` is the first group whose descriptor counts a free inode.
    pub open spec fn is_first_group_with_free_inodes(self, group: int) -> bool {
        &&& 0 <= group < self.descriptors.len()
        &&& self.descriptors[group].free_inodes_count > 0
        &&& forall|lower: int| 0 <= lower < group ==> self.descriptors[lower].free_inodes_count == 0
    }

    /// The first group whose descriptor counts a free inode, if there is one.
    pub open spec fn first_group_with_free_inodes(self) -> Option<int> {
        if exists|group: int| self.is_first_group_with_free_inodes(group) {
            Some(choose|group: int| self.is_first_group_with_free_inodes(group))
        } else {
            None
        }
    }

    /// The volume with `change` added to the free blocks that the superblock
    /// counts and to those that the descriptor of `group` counts.
    pub open spec fn with_free_blocks_changed(self, group: int, change: int) -> Volume {
        Volume {
            superblock: Superblock {
                free_blocks_count: (self.superblock.free_blocks_count + change) as u64,
                ..self.superblock
            },
            descriptors: self.descriptors.update(
                group,
                BlockGroupDescriptor {
                    free_blocks_count: (self.descriptors[group].free_blocks_count + change) as u64,
                    ..self.descriptors[group]
                },
            ),
            ..self
        }
    }

    /// The volume with `change` added to the free inodes that the superblock
    /// counts and to those that the descriptor of `group` counts.
    pub open spec fn with_free_inodes_changed(self, group: int, change: int) -> Volume {
        Volume {
            superblock: Superblock {
                free_inodes_count: (self.superblock.free_inodes_count + change) as u64,
                ..self.superblock
            },
            descriptors: self.descriptors.update(
                group,
                BlockGroupDescriptor {
                    free_inodes_count: (self.descriptors[group].free_inodes_count + change) as u32,
                    ..self.descriptors[group]
                },
            ),
            ..self
        }
    }

    /// Takes a free block: the first clear bit of the block bitmap of the
    /// first group that counts a free block. The counts go down by one and are
    /// stored in every copy, then the bit is set. It is `NoSpace` where no group
    /// counts a free block, and `Corrupt` where the bitmap of the group that
    /// does has no clear bit, or the superblock counts none; the volume is then
    /// as it was.
    pub open spec fn allocate_block(self) -> (Volume, Result<u64, Error>) {
        match self.first_group_with_free_blocks() {
            None => (self, Err(Error::NoSpace)),
            Some(group) => {
                let bitmap = self.block_bitmap(group);
                match first_clear_bit(bitmap, self.group_len(group)) {
                    None => (self, Err(Error::Corrupt)),
                    Some(index) => if self.superblock.free_blocks_count == 0 {
                        (self, Err(Error::Corrupt))
                    } else {
                        (
                            self.with_free_blocks_changed(group, -1).with_copies().with_block(
                                self.descriptors[group].block_bitmap_block_index as int,
                                with_bit(bitmap, index, true),
                            ),
                            Ok((self.group_start(group) + index) as u64),
                        )
                    },
                }
            },
        }
    }

    /// The group that holds block `block_index`.
    pub open spec fn group_of_block(self, block_index: int) -> int {
        (block_index - self.superblock.first_data_block_block_index) / (
        self.superblock.block_count_per_block_group as int)
    }

    /// Block `block_index` is one that a block bitmap covers.
    pub open spec fn block_in_groups(self, block_index: int) -> bool {
        self.superblock.first_data_block_block_index <= block_index < self.block_count()
    }

    /// Gives block `block_index` back: the counts go up by one and are stored
    /// in every copy, then the bit of the block is cleared. It is `Corrupt`
    /// where no group holds the block, the bitmap does not mark it as used, or
    /// a count cannot go up; the volume is then as it was.
    pub open spec fn free_block(self, block_index: int) -> (Volume, Result<(), Error>) {
        let group = self.group_of_block(block_index);
        let index = block_index - self.group_start(group);
        let bitmap = self.block_bitmap(group);
        if !self.block_in_groups(block_index) || !bit(bitmap, index)
            || self.superblock.free_blocks_count >= u32::MAX
            || self.descriptors[group].free_blocks_count >= u16::MAX {
            (self, Err(Error::Corrupt))
        } else {
            (
                self.with_free_blocks_changed(group, 1).with_copies().with_block(
                    self.descriptors[group].block_bitmap_block_index as int,
                    with_bit(bitmap, index, false),
                ),
                Ok(()),
            )
        }
    }

    /// The index of inode `index` of group `group`: inodes are numbered from 1.
    pub open spec fn inode_index(self, group: int, index: int) -> int {
        1 + group * self.superblock.inode_count_per_block_group + index
    }

    /// The group that holds inode `inode_index`.
    pub open spec fn group_of_inode(self, inode_index: int) -> int {
        (inode_index - 1) / (self.superblock.inode_count_per_block_group as int)
    }

    /// Where inode `inode_index` stands among the inodes of its group.
    pub open spec fn index_in_group_of_inode(self, inode_index: int) -> int {
        (inode_index - 1) % (self.superblock.inode_count_per_block_group as int)
    }

    /// `inode_index` names an inode of the volume.
    pub open spec fn inode_in_range(self, inode_index: int) -> bool {
        1 <= inode_index <= self.inode_count()
    }

    /// Byte offset of the record of inode `inode_index`, in the part of the
    /// inode table that its group holds.
    pub open spec fn inode_start(self, inode_index: int) -> int {
        self.descriptors[self.group_of_inode(inode_index)].inode_table_first_block_index
            * self.block_size() + self.index_in_group_of_inode(inode_index)
            * self.superblock.inode_size
    }

    /// Inode `inode_index`, as the device holds it.
    pub open spec fn inode(self, inode_index: int) -> Inode {
        Inode::decode(
            self.disk.subrange(
                self.inode_start(inode_index),
                self.inode_start(inode_index) + INODE_PRACTICAL_SIZE,
            ),
        )
    }

    /// The volume after `inode` has been stored as inode `inode_index`.
    pub open spec fn with_inode(self, inode_index: int, inode: Inode) -> Volume {
        self.with_bytes(self.inode_start(inode_index), inode.encoded())
    }

    /// Takes a free inode: the first clear bit of the inode bitmap of the
    /// first group that counts a free inode. The counts go down by one and are
    /// stored in every copy, then the bit is set. It is `NoSpace` where no group
    /// counts a free inode, and `Corrupt` where the bitmap of the group that
    /// does has no clear bit, the inode found is one of the reserved ones, or
    /// the superblock counts none; the volume is then as it was.
    pub open spec fn allocate_inode(self) -> (Volume, Result<u64, Error>) {
        match self.first_group_with_free_inodes() {
            None => (self, Err(Error::NoSpace)),
            Some(group) => {
                let bitmap = self.inode_bitmap(group);
                match first_clear_bit(
                    bitmap,
                    self.superblock.inode_count_per_block_group as int,
                ) {
                    None => (self, Err(Error::Corrupt)),
                    Some(index) => if self.inode_index(group, index)
                        < self.superblock.first_usable_inode_index
                        || self.superblock.free_inodes_count == 0 {
                        (self, Err(Error::Corrupt))
                    } else {
                        (
                            self.with_free_inodes_changed(group, -1).with_copies().with_block(
                                self.descriptors[group].inode_bitmap_block_index as int,
                                with_bit(bitmap, index, true),
                            ),
                            Ok(self.inode_index(group, index) as u64),
                        )
                    },
                }
            },
        }
    }

    /// Gives inode `inode_index` back: the counts go up by one and are stored
    /// in every copy, then the bit of the inode is cleared. It is `Corrupt`
    /// where the bitmap does not mark the inode as used, or a count cannot go
    /// up; the volume is then as it was.
    pub open spec fn free_inode(self, inode_index: int) -> (Volume, Result<(), Error>) {
        let group = self.group_of_inode(inode_index);
        let index = self.index_in_group_of_inode(inode_index);
        let bitmap = self.inode_bitmap(group);
        if !bit(bitmap, index) || self.superblock.free_inodes_count >= u32::MAX
            || self.descriptors[group].free_inodes_count >= u16::MAX {
            (self, Err(Error::Corrupt))
        } else {
            (
                self.with_free_inodes_changed(group, 1).with_copies().with_block(
                    self.descriptors[group].inode_bitmap_block_index as int,
                    with_bit(bitmap, index, false),
                ),
                Ok(()),
            )
        }
    }

    /// Descriptor `group` places its bitmaps and its inode table on the device.
    pub open spec fn descriptor_in_range(self, group: int) -> bool {
        let descriptor = self.descriptors[group];
        &&& descriptor.fits()
        &&& descriptor.block_bitmap_block_index < self.block_count()
        &&& descriptor.inode_bitmap_block_index < self.block_count()
        &&& descriptor.inode_table_first_block_index + self.inode_table_block_count()
            <= self.block_count()
    }

    /// Group `group`, where it holds copies, has room for them.
    pub open spec fn copies_fit(self, group: int) -> bool {
        self.group_has_copies(group) ==> self.group_start(group) + 1 + self.table_block_count()
            <= self.group_end(group)
    }

    /// The layout is sound whatever the descriptors say: the one that the
    /// superblock gives is (`Superblock::layout_ok`), the index of each block
    /// fits the 32 bits that a pointer to it has on the device, and the index
    /// of each group the field that a superblock copy has for it.
    pub open spec fn layout_ok(self) -> bool {
        &&& self.superblock.layout_ok()
        &&& self.disk.len() <= u64::MAX
        &&& self.block_count() <= MAX_BLOCK_COUNT
        &&& self.group_count() <= MAX_GROUP_COUNT
    }

    /// The volume is one that the session can work on: its layout is sound
    /// (`layout_ok`), there is one descriptor for each group, the bitmaps and inode tables that they name
    /// lie on the device, and each group that holds copies has room for them.
    pub open spec fn wf(self) -> bool {
        &&& self.layout_ok()
        &&& self.descriptors.len() == self.group_count()
        &&& forall|group: int|
            0 <= group < self.group_count() ==> #[trigger] self.descriptor_in_range(group)
        &&& forall|group: int| 0 <= group < self.group_count() ==> #[trigger] self.copies_fit(group)
    }
}

impl Volume {
    /// A block of the device lies inside the device, and starts at a multiple
    /// of the sector size.
    pub proof fn lemma_block_in_disk(self, index: int)
        requires
            self.superblock.log_block_size <= MAX_LOG_BLOCK_SIZE,
            0 <= index < self.block_count(),
        ensures
            0 <= index * self.block_size(),
            index * self.block_size() + self.block_size() <= self.disk.len(),
            (index + 1) * self.block_size() == index * self.block_size() + self.block_size(),
            (index * self.block_size()) % 512 == 0,
            self.block_size() % 512 == 0,
            self.block(index).len() == self.block_size(),
    {
        lemma_block_size_bounds(self.superblock);
        let bs = self.block_size();
        let n = self.disk.len() as int;
        vstd::arithmetic::div_mod::lemma_fundamental_div_mod(n, bs);
        vstd::arithmetic::div_mod::lemma_mod_bound(n, bs);
        assert((index + 1) * bs <= (n / bs) * bs) by (nonlinear_arith)
            requires
                index + 1 <= n / bs,
                bs > 0,
        ;
        assert(bs * (n / bs) == (n / bs) * bs) by (nonlinear_arith);
        assert(0 <= index * bs) by (nonlinear_arith)
            requires
                0 <= index,
                bs > 0,
        ;
        assert((index + 1) * bs == index * bs + bs) by (nonlinear_arith);
        let k = bs / 1024;
        assert(bs == 1024 * k);
        assert(index * bs == (index * k * 2) * 512) by (nonlinear_arith)
            requires
                bs == 1024 * k,
        ;
        vstd::arithmetic::div_mod::lemma_mod_multiples_basic(index * k * 2, 512);
    }

    /// The groups below the group count are not empty, follow one another and
    /// end with the device: the last one is cut short, not left out.
    pub proof fn lemma_group_range(self, group: int)
        requires
            self.superblock.block_count_per_block_group >= 1,
            0 <= group < self.group_count(),
        ensures
            self.group_start(group) < self.group_end(group) <= self.block_count(),
            self.group_end(group) <= self.group_start(group)
                + self.superblock.block_count_per_block_group,
            group < self.group_count() - 1 ==> self.group_end(group) == self.group_start(group + 1)
                && self.group_end(group) == self.group_start(group)
                + self.superblock.block_count_per_block_group,
            group == self.group_count() - 1 ==> self.group_end(group) == self.block_count(),
            self.group_count() <= self.block_count(),
    {
        let per_group = self.superblock.block_count_per_block_group as int;
        let first = self.superblock.first_data_block_block_index as int;
        let x = self.block_count() - first - 1;
        let q = x / per_group;
        vstd::arithmetic::div_mod::lemma_fundamental_div_mod(x, per_group);
        vstd::arithmetic::div_mod::lemma_mod_bound(x, per_group);
        assert(per_group * q == q * per_group) by (nonlinear_arith);
        assert(group * per_group <= q * per_group) by (nonlinear_arith)
            requires
                group <= q,
                per_group >= 1,
        ;
        assert((group + 1) * per_group == group * per_group + per_group) by (nonlinear_arith);
        if group < q {
            assert((group + 1) * per_group <= q * per_group) by (nonlinear_arith)
                requires
                    group + 1 <= q,
                    per_group >= 1,
            ;
        }
        assert(q <= q * per_group) by (nonlinear_arith)
            requires
                q >= 0,
                per_group >= 1,
        ;
    }

    /// From the group count on, a group would start past the device.
    pub proof fn lemma_group_past_end(self, group: int)
        requires
            self.superblock.block_count_per_block_group >= 1,
            self.group_count() <= group,
        ensures
            self.block_count() <= self.group_start(group),
    {
        let per_group = self.superblock.block_count_per_block_group as int;
        let first = self.superblock.first_data_block_block_index as int;
        if self.block_count() > first {
            let x = self.block_count() - first - 1;
            let q = x / per_group;
            vstd::arithmetic::div_mod::lemma_fundamental_div_mod(x, per_group);
            vstd::arithmetic::div_mod::lemma_mod_bound(x, per_group);
            assert(per_group * q == q * per_group) by (nonlinear_arith);
            assert(group * per_group >= (q + 1) * per_group) by (nonlinear_arith)
                requires
                    group >= q + 1,
                    per_group >= 1,
            ;
            assert((q + 1) * per_group == q * per_group + per_group) by (nonlinear_arith);
        } else {
            assert(group * per_group >= 0) by (nonlinear_arith)
                requires
                    group >= 0,
                    per_group >= 1,
            ;
        }
    }

    /// The copy of the superblock in a group that holds copies lies inside one
    /// block of the device.
    pub proof fn lemma_superblock_copy_place(self, group: int)
        requires
            self.layout_ok(),
            0 <= group < self.group_count(),
        ensures
            0 <= self.superblock_copy_start(group) <= u64::MAX,
            self.superblock_copy_start(group) / self.block_size() < self.block_count(),
            self.superblock_copy_start(group) % self.block_size() + SUPERBLOCK_FIELDS_SIZE
                <= self.block_size(),
            0 <= self.group_start(group) < self.block_count(),
            self.group_start(group) * self.block_size() <= u64::MAX,
    {
        let bs = self.block_size();
        lemma_block_size_bounds(self.superblock);
        self.lemma_group_range(group);
        let start = self.group_start(group);
        assert(0 <= start) by (nonlinear_arith)
            requires
                start == self.superblock.first_data_block_block_index + group
                    * self.superblock.block_count_per_block_group,
                group >= 0,
        ;
        self.lemma_block_in_disk(start);
        if group == 0 {
            self.lemma_group_range(0);
            if bs == 1024 {
            } else {
                assert(bs >= 2048);
                vstd::arithmetic::div_mod::lemma_small_mod(1024, bs as nat);
            }
        } else {
            vstd::arithmetic::div_mod::lemma_div_multiples_vanish(start, bs);
            vstd::arithmetic::div_mod::lemma_mod_multiples_basic(start, bs);
            assert(bs * start == start * bs) by (nonlinear_arith);
        }
    }

    /// Each descriptor of the copy of the table in a group that holds copies
    /// lies inside one block of the device.
    pub proof fn lemma_descriptor_copy_place(self, group: int, index: int)
        requires
            self.layout_ok(),
            0 <= group < self.group_count(),
            self.group_start(group) + 1 + self.table_block_count() <= self.group_end(group),
            0 <= index < self.group_count(),
        ensures
            0 <= self.descriptor_copy_start(group, index) <= u64::MAX,
            self.descriptor_copy_start(group, index) / self.block_size() < self.block_count(),
            self.descriptor_copy_start(group, index) % self.block_size() + DESCRIPTOR_FIELDS_SIZE
                <= self.block_size(),
            (self.group_start(group) + 1) * self.block_size() <= u64::MAX,
            0 <= self.group_start(group) + 1 < self.block_count(),
    {
        let bs = self.block_size();
        lemma_block_size_bounds(self.superblock);
        self.lemma_group_range(group);
        self.lemma_superblock_copy_place(group);
        let first = self.group_start(group) + 1;
        lemma_record_place(first, bs, 32, index, self.group_count(), self.table_block_count());
        self.lemma_block_in_disk(first + (index * 32) / bs);
        self.lemma_block_in_disk(first);
        assert(self.descriptor_copy_start(group, index) == first * bs + index * 32);
    }

    /// Where a first group with free blocks is found, it is the one that
    /// `first_group_with_free_blocks` names.
    pub proof fn lemma_first_group_with_free_blocks(self, group: int)
        requires
            self.is_first_group_with_free_blocks(group),
        ensures
            self.first_group_with_free_blocks() == Some(group),
    {
        let chosen = choose|g: int| self.is_first_group_with_free_blocks(g);
        if chosen < group {
            assert(self.descriptors[chosen].free_blocks_count == 0);
        } else if group < chosen {
            assert(self.descriptors[group].free_blocks_count == 0);
        }
    }

    /// Where a first group with free inodes is found, it is the one that
    /// `first_group_with_free_inodes` names.
    pub proof fn lemma_first_group_with_free_inodes(self, group: int)
        requires
            self.is_first_group_with_free_inodes(group),
        ensures
            self.first_group_with_free_inodes() == Some(group),
    {
        let chosen = choose|g: int| self.is_first_group_with_free_inodes(g);
        if chosen < group {
            assert(self.descriptors[chosen].free_inodes_count == 0);
        } else if group < chosen {
            assert(self.descriptors[group].free_inodes_count == 0);
        }
    }

    /// Counting free blocks up or down keeps a volume sound, as long as the
    /// counts still fit their fields.
    pub proof fn lemma_with_free_blocks_changed_wf(self, group: int, change: int)
        requires
            self.wf(),
            0 <= group < self.group_count(),
            0 <= self.superblock.free_blocks_count + change <= u32::MAX,
            0 <= self.descriptors[group].free_blocks_count + change <= u16::MAX,
        ensures
            self.with_free_blocks_changed(group, change).wf(),
            self.with_free_blocks_changed(group, change).group_count() == self.group_count(),
            self.with_free_blocks_changed(group, change).constants() == self.constants(),
    {
        Self::lemma_counted_free_blocks_update(
            self.descriptors,
            group,
            self.with_free_blocks_changed(group, change).descriptors[group],
            self.descriptors.len() as int,
        );
        let after = self.with_free_blocks_changed(group, change);
        assert forall|g: int| 0 <= g < after.group_count() implies #[trigger]
            after.descriptor_in_range(g) by {
            assert(self.descriptor_in_range(g));
        }
        assert forall|g: int| 0 <= g < after.group_count() implies #[trigger] after.copies_fit(
            g,
        ) by {
            assert(self.copies_fit(g));
        }
    }

    /// Counting free inodes up or down keeps a volume sound, as long as the
    /// counts still fit their fields.
    pub proof fn lemma_with_free_inodes_changed_wf(self, group: int, change: int)
        requires
            self.wf(),
            0 <= group < self.group_count(),
            0 <= self.superblock.free_inodes_count + change <= u32::MAX,
            0 <= self.descriptors[group].free_inodes_count + change <= u16::MAX,
        ensures
            self.with_free_inodes_changed(group, change).wf(),
            self.with_free_inodes_changed(group, change).group_count() == self.group_count(),
            self.with_free_inodes_changed(group, change).constants() == self.constants(),
    {
        Self::lemma_counted_free_blocks_update(
            self.descriptors,
            group,
            self.with_free_inodes_changed(group, change).descriptors[group],
            self.descriptors.len() as int,
        );
        let after = self.with_free_inodes_changed(group, change);
        assert forall|g: int| 0 <= g < after.group_count() implies #[trigger]
            after.descriptor_in_range(g) by {
            assert(self.descriptor_in_range(g));
        }
        assert forall|g: int| 0 <= g < after.group_count() implies #[trigger] after.copies_fit(
            g,
        ) by {
            assert(self.copies_fit(g));
        }
    }

    /// A block that the groups cover lies in the group that `group_of_block`
    /// names, which is one of the groups of the volume.
    pub proof fn lemma_group_of_block(self, block_index: int)
        requires
            self.superblock.block_count_per_block_group >= 1,
            self.block_in_groups(block_index),
        ensures
            0 <= self.group_of_block(block_index) < self.group_count(),
            self.group_start(self.group_of_block(block_index)) <= block_index < self.group_end(
                self.group_of_block(block_index),
            ),
    {
        let per_group = self.superblock.block_count_per_block_group as int;
        let first = self.superblock.first_data_block_block_index as int;
        let group = self.group_of_block(block_index);
        let x = block_index - first;
        vstd::arithmetic::div_mod::lemma_fundamental_div_mod(x, per_group);
        vstd::arithmetic::div_mod::lemma_mod_bound(x, per_group);
        vstd::arithmetic::div_mod::lemma_div_is_ordered(x, self.block_count() - first - 1, per_group);
        assert(0 <= group) by (nonlinear_arith)
            requires
                x == per_group * group + x % per_group,
                0 <= x % per_group < per_group,
                x >= 0,
        ;
        assert(per_group * group == group * per_group) by (nonlinear_arith);
        assert((group + 1) * per_group == group * per_group + per_group) by (nonlinear_arith);
        self.lemma_group_range(group);
    }

    /// Storing the copies changes neither what is held in memory nor the
    /// length of the device.
    pub proof fn lemma_with_copies_keeps(self, count: int)
        ensures
            self.with_copies_upto(count).superblock == self.superblock,
            self.with_copies_upto(count).descriptors == self.descriptors,
            self.with_copies_upto(count).disk.len() == self.disk.len(),
        decreases count,
    {
        if count > 0 {
            self.lemma_with_copies_keeps(count - 1);
            let before = self.with_copies_upto(count - 1);
            if before.group_has_copies(count - 1) {
                let with_superblock = before.with_bytes(
                    before.superblock_copy_start(count - 1),
                    before.superblock_copy(count - 1).encoded(),
                );
                with_superblock.lemma_with_descriptor_copies_keeps(
                    count - 1,
                    with_superblock.group_count(),
                );
            }
        }
    }

    /// Storing descriptors changes neither what is held in memory nor the
    /// length of the device.
    pub proof fn lemma_with_descriptor_copies_keeps(self, group: int, count: int)
        ensures
            self.with_descriptor_copies(group, count).superblock == self.superblock,
            self.with_descriptor_copies(group, count).descriptors == self.descriptors,
            self.with_descriptor_copies(group, count).disk.len() == self.disk.len(),
        decreases count,
    {
        if count > 0 {
            self.lemma_with_descriptor_copies_keeps(group, count - 1);
        }
    }

    /// An inode of the volume belongs to one of its groups, and its record
    /// lies inside one block of the device.
    pub proof fn lemma_inode_place(self, inode_index: int)
        requires
            self.wf(),
            self.inode_in_range(inode_index),
        ensures
            0 <= self.group_of_inode(inode_index) < self.group_count(),
            0 <= self.index_in_group_of_inode(inode_index)
                < self.superblock.inode_count_per_block_group,
            inode_index == self.inode_index(
                self.group_of_inode(inode_index),
                self.index_in_group_of_inode(inode_index),
            ),
            0 <= self.inode_start(inode_index),
            self.inode_start(inode_index) + INODE_PRACTICAL_SIZE <= self.disk.len(),
            self.inode_start(inode_index) / self.block_size() < self.block_count(),
            self.inode_start(inode_index) % self.block_size() + INODE_PRACTICAL_SIZE
                <= self.block_size(),
            self.inode_start(inode_index) / self.block_size()
                == self.descriptors[self.group_of_inode(
                inode_index,
            )].inode_table_first_block_index + (self.index_in_group_of_inode(inode_index)
                * self.superblock.inode_size) / self.block_size(),
            self.inode_start(inode_index) % self.block_size() == (self.index_in_group_of_inode(
                inode_index,
            ) * self.superblock.inode_size) % self.block_size(),
            0 <= self.index_in_group_of_inode(inode_index) * self.superblock.inode_size
                <= 0xffff_ffff * 0xffff,
            self.descriptors[self.group_of_inode(inode_index)].inode_table_first_block_index
                <= self.inode_start(inode_index) / self.block_size()
                < self.descriptors[self.group_of_inode(inode_index)].inode_table_first_block_index
                + self.inode_table_block_count(),
    {
        let per_group = self.superblock.inode_count_per_block_group as int;
        let size = self.superblock.inode_size as int;
        let bs = self.block_size();
        let group = self.group_of_inode(inode_index);
        let index = self.index_in_group_of_inode(inode_index);
        lemma_block_size_bounds(self.superblock);
        vstd::arithmetic::div_mod::lemma_fundamental_div_mod(inode_index - 1, per_group);
        vstd::arithmetic::div_mod::lemma_mod_bound(inode_index - 1, per_group);
        assert(0 <= group < self.group_count()) by (nonlinear_arith)
            requires
                inode_index - 1 == per_group * group + index,
                0 <= index < per_group,
                0 <= inode_index - 1 < self.group_count() * per_group,
        ;
        assert(per_group * group == group * per_group) by (nonlinear_arith);
        assert(self.descriptor_in_range(group));
        let first = self.descriptors[group].inode_table_first_block_index as int;
        if bs < size {
            vstd::arithmetic::div_mod::lemma_small_mod(bs as nat, size as nat);
        }
        lemma_record_place(first, bs, size, index, per_group, self.inode_table_block_count());
        self.lemma_block_in_disk(first + (index * size) / bs);
        assert(index * size <= 0xffff_ffff * 0xffff) by (nonlinear_arith)
            requires
                0 <= index <= 0xffff_ffff,
                0 <= size <= 0xffff,
        ;
    }

    /// An inode that was stored is the inode that is read.
    pub proof fn lemma_with_inode_read_back(self, inode_index: int, inode: Inode)
        requires
            self.wf(),
            self.inode_in_range(inode_index),
            inode.fits(),
        ensures
            self.with_inode(inode_index, inode).inode(inode_index) == inode,
    {
        self.lemma_inode_place(inode_index);
        let start = self.inode_start(inode_index);
        let zeros = crate::bytes::zero_bytes(INODE_PRACTICAL_SIZE as nat);
        inode.lemma_written_over_is_encoded(zeros);
        inode.lemma_round_trip(zeros);
        let after = self.with_inode(inode_index, inode);
        assert(after.inode_start(inode_index) == start);
        assert(after.disk.subrange(start, start + INODE_PRACTICAL_SIZE) =~= inode.encoded());
    }

    /// Counting one descriptor up or down changes the sum of the counts by as
    /// much.
    pub proof fn lemma_counted_free_blocks_update(
        descriptors: Seq<BlockGroupDescriptor>,
        group: int,
        changed: BlockGroupDescriptor,
        count: int,
    )
        requires
            0 <= group < descriptors.len(),
            0 <= count <= descriptors.len(),
        ensures
            counted_free_blocks(descriptors.update(group, changed), count) == counted_free_blocks(
                descriptors,
                count,
            ) + if group < count {
                changed.free_blocks_count - descriptors[group].free_blocks_count
            } else {
                0
            },
            counted_free_inodes(descriptors.update(group, changed), count) == counted_free_inodes(
                descriptors,
                count,
            ) + if group < count {
                changed.free_inodes_count - descriptors[group].free_inodes_count
            } else {
                0
            },
        decreases count,
    {
        if count > 0 {
            Self::lemma_counted_free_blocks_update(descriptors, group, changed, count - 1);
        }
    }

    /// Writing bytes changes neither the layout nor the soundness of a volume.
    pub proof fn lemma_with_bytes_wf(self, at: int, data: Seq<u8>)
        requires
            self.wf(),
        ensures
            self.with_bytes(at, data).wf(),
            self.with_bytes(at, data).block_count() == self.block_count(),
            self.with_bytes(at, data).group_count() == self.group_count(),
            self.with_bytes(at, data).disk.len() == self.disk.len(),
    {
        let after = self.with_bytes(at, data);
        assert forall|group: int| 0 <= group < after.group_count() implies #[trigger]
            after.descriptor_in_range(group) by {
            assert(self.descriptor_in_range(group));
        }
        assert forall|group: int| 0 <= group < after.group_count() implies #[trigger]
            after.copies_fit(group) by {
            assert(self.copies_fit(group));
        }
    }
}

/// Where record `index` of `count` records of `size` bytes lies, when the
/// records fill blocks of `block_size` bytes from block `first` on and `size`
/// divides `block_size`: in one of the blocks that the records take, and
/// wholly inside it.
pub proof fn lemma_record_place(
    first: int,
    block_size: int,
    size: int,
    index: int,
    count: int,
    blocks: int,
)
    requires
        first >= 0,
        size >= 1,
        block_size >= size,
        block_size % size == 0,
        0 <= index < count,
        blocks == (count * size + block_size - 1) / block_size,
    ensures
        0 <= index * size,
        0 <= (index * size) / block_size < blocks,
        (first * block_size + index * size) / block_size == first + (index * size) / block_size,
        (first * block_size + index * size) % block_size == (index * size) % block_size,
        0 <= (index * size) % block_size,
        (index * size) % block_size + size <= block_size,
        first * block_size + index * size == (first + (index * size) / block_size) * block_size + (
        index * size) % block_size,
{
    let bs = block_size;
    let t = index * size;
    let whole = count * size;
    assert(0 <= t && t + size <= whole) by (nonlinear_arith)
        requires
            t == index * size,
            whole == count * size,
            0 <= index < count,
            size >= 1,
    ;
    vstd::arithmetic::div_mod::lemma_fundamental_div_mod(t, bs);
    vstd::arithmetic::div_mod::lemma_mod_bound(t, bs);
    vstd::arithmetic::div_mod::lemma_fundamental_div_mod(whole + bs - 1, bs);
    vstd::arithmetic::div_mod::lemma_mod_bound(whole + bs - 1, bs);
    let q = t / bs;
    let r = t % bs;
    assert(q < blocks) by (nonlinear_arith)
        requires
            t == bs * q + r,
            0 <= r < bs,
            whole + bs - 1 == bs * blocks + (whole + bs - 1) % bs,
            0 <= (whole + bs - 1) % bs < bs,
            t < whole,
            bs > 0,
    ;
    assert(0 <= q) by (nonlinear_arith)
        requires
            t == bs * q + r,
            0 <= r < bs,
            0 <= t,
            bs > 0,
    ;
    let m = bs / size;
    vstd::arithmetic::div_mod::lemma_fundamental_div_mod(bs, size);
    assert(bs == size * m);
    assert(m >= 1) by (nonlinear_arith)
        requires
            bs == size * m,
            bs >= size,
            size >= 1,
    ;
    vstd::arithmetic::div_mod::lemma_truncate_middle(index, size, m);
    vstd::arithmetic::div_mod::lemma_mod_bound(index, m);
    assert(size * index == index * size) by (nonlinear_arith);
    assert(r == size * (index % m));
    assert(r + size <= bs) by (nonlinear_arith)
        requires
            r == size * (index % m),
            bs == size * m,
            0 <= index % m < m,
            size >= 1,
    ;
    let start = first * bs + t;
    let block = first + q;
    assert(start == bs * block + r) by (nonlinear_arith)
        requires
            start == first * bs + t,
            t == bs * q + r,
            block == first + q,
    ;
    assert(block * bs == bs * block) by (nonlinear_arith);
    vstd::arithmetic::div_mod::lemma_fundamental_div_mod_converse(start, bs, block, r);
}

/// The block size of a superblock with a sound layout is a multiple of 1024
/// between 1024 and 8 MiB.
pub proof fn lemma_block_size_bounds(superblock: Superblock)
    requires
        superblock.log_block_size <= MAX_LOG_BLOCK_SIZE,
    ensures
        1024 <= superblock.spec_block_size() <= 0x80_0000,
        superblock.spec_block_size() % 1024 == 0,
        superblock.spec_block_size() == 1024 * pow2(superblock.log_block_size as nat),
{
    let e = superblock.log_block_size as nat;
    vstd::arithmetic::power2::lemma_pow2_pos(e);
    vstd::arithmetic::power2::lemma2_to64();
    if e < 13 {
        vstd::arithmetic::power2::lemma_pow2_strictly_increases(e, 13);
    }
    vstd::arithmetic::div_mod::lemma_mod_multiples_basic(pow2(e) as int, 1024);
    assert(1024 * pow2(e) == pow2(e) * 1024) by (nonlinear_arith);
}

} // verus!
