//! The block group descriptor and its on-disk encoding.

use crate::bytes::{
    le_u16, le_u32, lemma_le_u16_at, lemma_le_u32_at, read_u16, read_u32, splice, u16_bytes,
    u32_bytes, write_u16, write_u32, zero_bytes,
};
use vstd::prelude::*;

verus! {

/// Bytes that each descriptor takes in the descriptor table.
pub const DESCRIPTOR_SIZE: u64 = 32;

/// Bytes of a descriptor that the fields kept here cover.
pub const DESCRIPTOR_FIELDS_SIZE: usize = 18;

/// What the descriptor table records of one block group.
#[derive(Clone, Copy, Debug, PartialEq, Eq)]
pub struct BlockGroupDescriptor {
    /// The block that holds the group's block bitmap.
    pub block_bitmap_block_index: u64,
    /// The block that holds the group's inode bitmap.
    pub inode_bitmap_block_index: u64,
    /// The first block of the group's part of the inode table.
    pub inode_table_first_block_index: u64,
    /// Number of blocks of the group that its bitmap does not mark as used.
    pub free_blocks_count: u64,
    /// Number of inodes of the group that its bitmap does not mark as used.
    pub free_inodes_count: u32,
    /// Number of directories in the group.
    pub used_dirs_count: u32,
}

impl BlockGroupDescriptor {
    /// Every field fits the width it has on disk.
    pub open spec fn fits(self) -> bool {
        &&& self.block_bitmap_block_index <= u32::MAX
        &&& self.inode_bitmap_block_index <= u32::MAX
        &&& self.inode_table_first_block_index <= u32::MAX
        &&& self.free_blocks_count <= u16::MAX
        &&& self.free_inodes_count <= u16::MAX
        &&& self.used_dirs_count <= u16::MAX
    }

    /// The descriptor that the bytes hold.
    pub open spec fn decode(s: Seq<u8>) -> BlockGroupDescriptor {
        BlockGroupDescriptor {
            block_bitmap_block_index: le_u32(s, 0) as u64,
            inode_bitmap_block_index: le_u32(s, 4) as u64,
            inode_table_first_block_index: le_u32(s, 8) as u64,
            free_blocks_count: le_u16(s, 12) as u64,
            free_inodes_count: le_u16(s, 14) as u32,
            used_dirs_count: le_u16(s, 16) as u32,
        }
    }

    /// The bytes `s` after the fields have been stored over their places.
    pub open spec fn written_over(self, s: Seq<u8>) -> Seq<u8> {
        let s1 = splice(s, 0, u32_bytes(self.block_bitmap_block_index as u32));
        let s2 = splice(s1, 4, u32_bytes(self.inode_bitmap_block_index as u32));
        let s3 = splice(s2, 8, u32_bytes(self.inode_table_first_block_index as u32));
        let s4 = splice(s3, 12, u16_bytes(self.free_blocks_count as u16));
        let s5 = splice(s4, 14, u16_bytes(self.free_inodes_count as u16));
        splice(s5, 16, u16_bytes(self.used_dirs_count as u16))
    }

    /// The encoding of the fields alone.
    pub open spec fn encoded(self) -> Seq<u8> {
        self.written_over(zero_bytes(DESCRIPTOR_FIELDS_SIZE as nat))
    }

    /// Parses a descriptor from the first 18 bytes of `block_group_descriptor_data`.
    pub fn of_bytes(block_group_descriptor_data: &[u8]) -> (descriptor: BlockGroupDescriptor)
        requires
            block_group_descriptor_data@.len() >= DESCRIPTOR_FIELDS_SIZE,
        ensures
            descriptor == Self::decode(block_group_descriptor_data@),
            descriptor.fits(),
    {
        assert(block_group_descriptor_data.len() >= 18);
        let block_bitmap_block_index = read_u32(block_group_descriptor_data, 0) as u64;
        let inode_bitmap_block_index = read_u32(block_group_descriptor_data, 4) as u64;
        let inode_table_first_block_index = read_u32(block_group_descriptor_data, 8) as u64;
        let free_blocks_count = read_u16(block_group_descriptor_data, 12) as u64;
        let free_inodes_count = read_u16(block_group_descriptor_data, 14) as u32;
        let used_dirs_count = read_u16(block_group_descriptor_data, 16) as u32;
        BlockGroupDescriptor {
            block_bitmap_block_index,
            inode_bitmap_block_index,
            inode_table_first_block_index,
            free_blocks_count,
            free_inodes_count,
            used_dirs_count,
        }
    }

    /// Stores the fields over the first 18 bytes of
    /// `block_group_descriptor_data`; later bytes stay as they were.
    pub fn update_bytes(self, block_group_descriptor_data: &mut [u8])
        requires
            self.fits(),
            old(block_group_descriptor_data)@.len() >= DESCRIPTOR_FIELDS_SIZE,
        ensures
            final(block_group_descriptor_data)@ == self.written_over(
                old(block_group_descriptor_data)@,
            ),
    {
        assert(block_group_descriptor_data.len() >= 18);
        write_u32(block_group_descriptor_data, 0, self.block_bitmap_block_index as u32);
        write_u32(block_group_descriptor_data, 4, self.inode_bitmap_block_index as u32);
        write_u32(block_group_descriptor_data, 8, self.inode_table_first_block_index as u32);
        write_u16(block_group_descriptor_data, 12, self.free_blocks_count as u16);
        write_u16(block_group_descriptor_data, 14, self.free_inodes_count as u16);
        write_u16(block_group_descriptor_data, 16, self.used_dirs_count as u16);
    }

    /// Storing a descriptor changes no length and no byte past its fields, and
    /// what it stores does not depend on the buffer.
    pub proof fn lemma_written_over_frame(self, s: Seq<u8>)
        requires
            s.len() >= DESCRIPTOR_FIELDS_SIZE,
        ensures
            self.written_over(s).len() == s.len(),
            forall|i: int|
                DESCRIPTOR_FIELDS_SIZE <= i < s.len() ==> self.written_over(s)[i] == s[i],
            self.written_over(s).subrange(0, DESCRIPTOR_FIELDS_SIZE as int) == self.encoded(),
            self.encoded().len() == DESCRIPTOR_FIELDS_SIZE,
    {
        assert(self.written_over(s).subrange(0, DESCRIPTOR_FIELDS_SIZE as int) =~= self.encoded());
    }

    /// Round trip: a descriptor whose fields fit their widths, stored over any
    /// buffer that is long enough, parses to itself.
    pub proof fn lemma_round_trip(self, s: Seq<u8>)
        requires
            self.fits(),
            s.len() >= DESCRIPTOR_FIELDS_SIZE,
        ensures
            Self::decode(self.written_over(s)) == self,
    {
        let w = self.written_over(s);
        lemma_le_u32_at(w, 0, self.block_bitmap_block_index as u32);
        lemma_le_u32_at(w, 4, self.inode_bitmap_block_index as u32);
        lemma_le_u32_at(w, 8, self.inode_table_first_block_index as u32);
        lemma_le_u16_at(w, 12, self.free_blocks_count as u16);
        lemma_le_u16_at(w, 14, self.free_inodes_count as u16);
        lemma_le_u16_at(w, 16, self.used_dirs_count as u16);
    }
}

} // verus!
